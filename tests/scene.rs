use acray::scene::advance_sound;
use acray::{
    build_geometry_from_triangle_fan, Emitter, Fate, Hit, Interaction, Object, Ray, Scene, Sound,
    Sphere, Triangle, Vec3, FULL_INTENSITY, SCALE, SPEED_OF_SOUND,
};

fn v(x: i64, y: i64, z: i64) -> Vec3 {
    Vec3(x * SCALE, y * SCALE, z * SCALE)
}

#[test]
fn triangle_fan_three_points() {
    assert_eq!(
        build_geometry_from_triangle_fan(vec![v(0, 0, 0), v(0, 1, 0), v(1, 1, 0)]),
        vec![Triangle(v(0, 0, 0), v(0, 1, 0), v(1, 1, 0))]
    )
}

#[test]
fn triangle_fan_four_points_two_triangles() {
    assert_eq!(
        build_geometry_from_triangle_fan(vec![v(0, 0, 0), v(0, 1, 0), v(1, 1, 0), v(1, 0, 0)]),
        vec![
            Triangle(v(0, 0, 0), v(0, 1, 0), v(1, 1, 0)),
            Triangle(v(0, 0, 0), v(1, 1, 0), v(1, 0, 0))
        ]
    )
}

#[test]
fn single_ray_reaches_receiver() {
    // Emitter at (1,0,0), one sound sent toward a receiver of radius 0.1 at
    // the origin, nothing in between.
    let mut scene = Scene::new()
        .emitter(Emitter { origin: v(1, 0, 0), sounds_per_tick: 1 })
        .object(Object::receiver(Sphere::new(v(0, 0, 0), 100_000)));
    let captures: Vec<(Hit, u64)> = scene.simulate(&vec![v(-1, 0, 0)]);
    assert_eq!(captures.len(), 1);
    let (hit, intensity) = captures[0];
    assert_eq!(intensity, FULL_INTENSITY);
    // tca - sqrt(r^2 - d2) with oc = (-1,0,0), direction = (-344,0,0), r = 0.1.
    let tca: f64 = 344.0;
    let analytic: f64 = tca - (0.01 - (1.0 - tca * tca)).sqrt();
    assert!(((hit.time as f64) / (SCALE as f64) - analytic).abs() < 1e-6);
    assert_eq!(hit.time, 1439);
    assert_eq!(hit.point, Vec3(504_984, 0, 0));
    assert_eq!(hit.unit_normal, v(1, 0, 0));
}

#[test]
fn single_triangle_scene_hit() {
    let geometry = vec![Triangle(v(2, 1, 0), v(2, -1, 1), v(2, -1, -1))];
    let ray = Ray::new(v(0, 0, 0), v(1, 0, 0));
    let hit = ray.intersect_triangle(&geometry[0]).unwrap();
    assert_eq!(hit.time, 2 * SCALE);
    assert_eq!(hit.point, v(2, 0, 0));
}

fn wall(points: Vec<Vec3>, reflectance: u64) -> Object {
    Object::reflector(build_geometry_from_triangle_fan(points), reflectance)
}

fn closed_box(reflectance: u64) -> Scene {
    Scene::new()
        .emitter(Emitter { origin: v(1, 0, 0), sounds_per_tick: 24 })
        .object(Object::receiver(Sphere::new(v(0, 0, 0), 100_000)))
        .object(wall(vec![v(10, -5, -5), v(10, -5, 5), v(10, 5, 5), v(10, 5, -5)], reflectance))
        .object(wall(vec![v(-10, -5, -5), v(-10, -5, 5), v(-10, 5, 5), v(-10, 5, -5)], reflectance))
        .object(wall(vec![v(-10, -5, 5), v(10, -5, 5), v(10, 5, 5), v(-10, 5, 5)], reflectance))
        .object(wall(vec![v(-10, -5, -5), v(10, -5, -5), v(10, 5, -5), v(-10, 5, -5)], reflectance))
        .object(wall(vec![v(-10, -5, 5), v(10, -5, 5), v(10, -5, -5), v(-10, -5, -5)], reflectance))
        .object(wall(vec![v(-10, 5, 5), v(10, 5, 5), v(10, 5, -5), v(-10, 5, -5)], reflectance))
}

fn box_directions() -> Vec<Vec3> {
    let mut dirs = Vec::new();
    for i in 0..24i64 {
        dirs.push(Vec3(
            (i % 5 - 2) * 1_000 + 7,
            (i % 3 - 1) * 1_000 + 3 * i,
            (i % 7 - 3) * 1_000 - 5,
        ));
    }
    dirs
}

#[test]
fn closed_box_simulation_terminates() {
    let mut scene = closed_box(800_000_000_000_000);
    let captures = scene.simulate(&box_directions());
    assert!(captures.len() <= 24);
    for (hit, intensity) in &captures {
        assert!(*intensity <= FULL_INTENSITY);
        assert!(*intensity >= 1_000_000 || *intensity == FULL_INTENSITY);
        assert!(hit.time > 0);
    }
    // The scene itself is left as it was.
    assert_eq!(scene.emitters().len(), 1);
    assert_eq!(scene.objects.len(), 7);
}

#[test]
fn closed_box_captures_decay_by_reflectance() {
    let mut scene = closed_box(800_000_000_000_000);
    let captures = scene.simulate(&box_directions());
    // Each capture's intensity is what is left after some whole number of
    // reflections at 0.8 each.
    for (_, intensity) in &captures {
        let mut level: u64 = FULL_INTENSITY;
        let mut found = false;
        while level >= 1_000_000 {
            if level == *intensity {
                found = true;
                break;
            }
            level = ((level as u128 * 800_000_000_000_000u128) / FULL_INTENSITY as u128) as u64;
        }
        assert!(found);
    }
}

#[test]
fn sounds_escape_without_geometry() {
    let mut scene = Scene::new().emitter(Emitter { origin: v(0, 0, 0), sounds_per_tick: 3 });
    let captures = scene.simulate(&vec![v(1, 0, 0), v(0, 1, 0), v(0, 0, 1)]);
    assert!(captures.is_empty());
}

#[test]
fn emission_scales_to_speed_of_sound() {
    let scene = Scene::new()
        .emitter(Emitter { origin: v(1, 2, 3), sounds_per_tick: 2 })
        .emitter(Emitter { origin: v(0, 0, 0), sounds_per_tick: 1 });
    let sounds = scene.emit(&vec![v(2, 0, 0), v(0, -3, 0), v(0, 0, 1)]);
    assert_eq!(sounds.len(), 3);
    assert_eq!(sounds[0].ray.direction, Vec3(SPEED_OF_SOUND, 0, 0));
    assert_eq!(sounds[1].ray.direction, Vec3(0, -SPEED_OF_SOUND, 0));
    assert_eq!(sounds[2].ray.origin, v(0, 0, 0));
    assert_eq!(sounds[0].ray.origin, v(1, 2, 3));
    assert_eq!(sounds[0].intensity, FULL_INTENSITY);
    assert_eq!(sounds[0].ray.t_offset, 0);
}

#[test]
fn mirror_at_normal_incidence_reverses_direction() {
    // A wall at x = 3 facing the emitter; the receiver sits behind the
    // emitter, so the sound must bounce once to reach it.
    let mut scene = Scene::new()
        .emitter(Emitter { origin: v(1, 0, 0), sounds_per_tick: 1 })
        .object(wall(vec![v(3, -5, -5), v(3, -5, 5), v(3, 5, 5), v(3, 5, -5)], 500_000_000_000_000))
        .object(Object::receiver(Sphere::new(v(-1, 0, 0), 100_000)));
    let captures = scene.simulate(&vec![v(1, 0, 0)]);
    assert_eq!(captures.len(), 1);
    let (hit, intensity) = captures[0];
    assert_eq!(intensity, 500_000_000_000_000);
    // Reflected back along -x: the capture lies on the line y = z = 0.
    assert_eq!(hit.point.1, 0);
    assert_eq!(hit.point.2, 0);
    assert!(hit.point.0 > 0);
}

#[test]
fn reflect_reverses_parallel_direction() {
    let (x, y, z) = acray::scene::reflect(Vec3(3, -6, 9), Vec3(-SCALE / 2, SCALE, -3 * SCALE / 2));
    assert_eq!((x, y, z), (-3, 6, -9));
}

#[test]
fn reflect_oblique_direction() {
    // Off the floor z = 0: the z component flips, the others stay.
    let (x, y, z) = acray::scene::reflect(Vec3(5, -7, -11), Vec3(0, 0, SCALE));
    assert_eq!((x, y, z), (5, -7, 11));
}

#[test]
fn earliest_interaction_is_first_of_equal_times() {
    let h = |t: i64, x: i64| Hit { time: t, point: Vec3(x, 0, 0), unit_normal: Vec3(0, 0, 0) };
    let c = vec![
        Interaction::ObjectHit { hit: h(5, 1), reflectance: 1 },
        Interaction::ReceiverHit { hit: h(3, 2), intensity: 7 },
        Interaction::ObjectHit { hit: h(3, 3), reflectance: 2 },
        Interaction::ObjectHit { hit: h(9, 4), reflectance: 3 },
    ];
    assert_eq!(
        acray::scene::select_earliest(&c),
        Some(Interaction::ReceiverHit { hit: h(3, 2), intensity: 7 })
    );
    assert_eq!(acray::scene::select_earliest(&vec![]), None);
}

#[test]
fn decay_is_strict_below_full_reflectance() {
    // A sound hitting a 0.8 wall keeps 0.8 of its intensity.
    let objects = vec![wall(vec![v(3, -5, -5), v(3, -5, 5), v(3, 5, 5), v(3, 5, -5)], 800_000_000_000_000)];
    let sound = Sound { ray: Ray::new(v(0, 0, 0), v(1, 0, 0)), intensity: FULL_INTENSITY };
    match advance_sound(&sound, &objects) {
        Fate::Alive(next) => {
            assert_eq!(next.intensity, 800_000_000_000_000);
            assert_eq!(next.ray.direction, v(-1, 0, 0));
            assert_eq!(next.ray.origin, v(3, 0, 0));
            assert_eq!(next.ray.t_offset, 3 * SCALE);
            // The next round starts at the wall and must not hit it again.
            match advance_sound(&next, &objects) {
                Fate::Decayed => {}
                other => panic!("unexpected fate {:?}", other),
            }
        }
        other => panic!("unexpected fate {:?}", other),
    }
}

#[test]
fn inaudible_sound_is_dropped() {
    let objects = vec![wall(vec![v(3, -5, -5), v(3, -5, 5), v(3, 5, 5), v(3, 5, -5)], 500_000_000_000_000)];
    let sound = Sound { ray: Ray::new(v(0, 0, 0), v(1, 0, 0)), intensity: 1_999_999 };
    assert_eq!(advance_sound(&sound, &objects), Fate::Decayed);
    let audible = Sound { ray: Ray::new(v(0, 0, 0), v(1, 0, 0)), intensity: 2_000_000 };
    assert!(matches!(advance_sound(&audible, &objects), Fate::Alive(_)));
}

#[test]
fn interactions_are_ordered_by_time_across_kinds() {
    let h = |t: i64| Hit { time: t, point: v(0, 0, 0), unit_normal: v(1, 0, 0) };
    let capture = Interaction::ReceiverHit { hit: h(4), intensity: 10 };
    let bounce = Interaction::ObjectHit { hit: h(6), reflectance: 1 };
    assert!(capture < bounce);
    assert_eq!(bounce.cmp(&capture), std::cmp::Ordering::Greater);
    assert_eq!(
        Interaction::ObjectHit { hit: h(4), reflectance: 3 }.partial_cmp(&capture),
        Some(std::cmp::Ordering::Equal)
    );
    assert_eq!(capture.time(), 4);
}
