use acray::{Hit, Intersect, Ray, Sphere, Triangle, Vec3, SCALE};

fn v(x: i64, y: i64, z: i64) -> Vec3 {
    Vec3(x * SCALE, y * SCALE, z * SCALE)
}

#[test]
fn intersect_correct_triangle() {
    let ray: Ray = Ray::new(v(0, 0, 0), v(1, 0, 0));
    let triangle: Triangle<Vec3> = Triangle(v(2, 1, 0), v(2, -1, 1), v(2, -1, -1));
    let expected_hit_record = Some(Hit {
        time: 2 * SCALE,
        point: v(2, 0, 0),
        unit_normal: v(-1, 0, 0),
    });
    assert_eq!(ray.intersect(&triangle), expected_hit_record);
}

#[test]
fn intersect_correct_triangle_no_intersection() {
    let ray: Ray = Ray::new(v(0, 1, 1), v(1, 0, 0));
    let triangle: Triangle<Vec3> = Triangle(v(2, 0, 0), v(2, 1, 0), v(2, 0, 1));
    let expected_hit_record = None;
    assert_eq!(ray.intersect(&triangle), expected_hit_record);
}

#[test]
fn intersect_correct_sphere() {
    let ray: Ray = Ray::new(v(0, 0, 0), v(1, 0, 0));
    let sphere: Sphere = Sphere::new(v(2, 0, 0), SCALE);
    let expected_intersections = Some(vec![
        Hit {
            time: SCALE,
            point: v(1, 0, 0),
            unit_normal: v(-1, 0, 0),
        },
        Hit {
            time: 3 * SCALE,
            point: v(3, 0, 0),
            unit_normal: v(-1, 0, 0),
        },
    ]);
    assert_eq!(ray.intersect(&sphere), expected_intersections)
}

#[test]
fn intersect_correct_sphere_tangent() {
    let ray: Ray = Ray::new(v(0, 1, 0), v(1, 0, 0));
    let sphere: Sphere = Sphere::new(v(2, 0, 0), SCALE);
    let expected_intersections = Some(vec![Hit {
        time: 2 * SCALE,
        point: v(2, 1, 0),
        unit_normal: v(0, 1, 0),
    }]);
    assert_eq!(ray.intersect(&sphere), expected_intersections)
}

#[test]
fn intersect_correct_sphere_no_intersection() {
    let ray: Ray = Ray::new(v(0, 2, 0), v(1, 0, 0));
    let sphere: Sphere = Sphere::new(v(2, 0, 0), SCALE);
    let expected_intersections = None;
    assert_eq!(ray.intersect(&sphere), expected_intersections)
}

#[test]
fn aimed_ray_hits_at_distance() {
    // A triangle orthogonal to the direction, 3.5 units ahead of the origin,
    // on a ray that started at time 10 s.
    let ray = Ray { origin: v(1, 1, 1), direction: v(0, 0, 2), t_offset: 10 * SCALE };
    let triangle = Triangle(v(0, 0, 8), v(4, 0, 8), v(0, 4, 8));
    let hit = ray.intersect_triangle(&triangle).unwrap();
    assert_eq!(hit.time, 10 * SCALE + 3_500_000);
    assert_eq!(hit.point, v(1, 1, 8));
    assert_eq!(hit.unit_normal, v(0, 0, -1));
}

#[test]
fn hit_on_edge_counts() {
    let ray = Ray::new(v(0, 0, 0), v(1, 0, 0));
    let triangle = Triangle(v(2, 0, 0), v(2, 1, 0), v(2, 0, 1));
    assert_eq!(ray.intersect_triangle(&triangle).map(|h| h.point), Some(v(2, 0, 0)));
}

#[test]
fn hit_behind_origin_is_reported() {
    let ray = Ray::new(v(5, 0, 0), v(1, 0, 0));
    let triangle = Triangle(v(2, 1, 0), v(2, -1, 1), v(2, -1, -1));
    let hit = ray.intersect_triangle(&triangle).unwrap();
    assert_eq!(hit.time, -3 * SCALE);
    assert_eq!(hit.point, v(2, 0, 0));
}

#[test]
fn parallel_ray_misses_triangle() {
    // Parallel to the plane x = 2, both off the plane and within it.
    let triangle = Triangle(v(2, 1, 0), v(2, -1, 1), v(2, -1, -1));
    let off_plane = Ray::new(v(0, 0, 0), v(0, 1, 0));
    let in_plane = Ray::new(v(2, -5, 0), v(0, 1, 0));
    assert_eq!(off_plane.intersect_triangle(&triangle), None);
    assert_eq!(in_plane.intersect_triangle(&triangle), None);
}

#[test]
fn degenerate_triangle_is_never_hit() {
    let ray = Ray::new(v(0, 0, 0), v(1, 0, 0));
    let triangle = Triangle(v(2, 0, 0), v(2, 1, 0), v(2, 2, 0));
    assert_eq!(ray.intersect_triangle(&triangle), None);
}

#[test]
fn sphere_through_center_hits_at_tca_plus_minus_radius() {
    // Unit speed along y, through the center of a sphere of radius 2 at (0,5,0).
    let ray = Ray::new(v(0, 0, 0), v(0, 1, 0));
    let sphere = Sphere::new(v(0, 5, 0), 2 * SCALE);
    let hits = ray.intersect_sphere(&sphere).unwrap();
    assert_eq!(hits.len(), 2);
    assert_eq!(hits[0].time, 3 * SCALE);
    assert_eq!(hits[1].time, 7 * SCALE);
    assert_eq!(hits[0].point, v(0, 3, 0));
    assert_eq!(hits[1].point, v(0, 7, 0));
    assert_eq!(hits[0].unit_normal, v(0, -1, 0));
    assert_eq!(hits[1].unit_normal, v(0, -1, 0));
}

#[test]
fn sphere_hit_times_include_offset() {
    let ray = Ray { origin: v(0, 0, 0), direction: v(1, 0, 0), t_offset: 4 * SCALE };
    let sphere = Sphere::new(v(2, 0, 0), SCALE);
    let hits = ray.intersect_sphere(&sphere).unwrap();
    assert_eq!(hits[0].time, 5 * SCALE);
    assert_eq!(hits[1].time, 7 * SCALE);
}

#[test]
fn ray_at_moves_along_direction() {
    let ray = Ray::new(v(1, 2, 3), Vec3(344 * SCALE, 0, -SCALE));
    // Half a second later.
    assert_eq!(ray.at(500_000), Vec3(173 * SCALE, 2 * SCALE, 2_500_000));
}

#[test]
fn hits_are_ordered_by_time_alone() {
    let early = Hit { time: 5, point: v(9, 9, 9), unit_normal: v(1, 0, 0) };
    let late = Hit { time: 7, point: v(0, 0, 0), unit_normal: v(0, 1, 0) };
    let tie = Hit { time: 5, point: v(1, 2, 3), unit_normal: v(0, 0, 1) };
    assert!(early < late);
    assert!(late > early);
    assert_eq!(early.cmp(&tie), std::cmp::Ordering::Equal);
    assert_eq!(early.partial_cmp(&late), Some(std::cmp::Ordering::Less));
}
