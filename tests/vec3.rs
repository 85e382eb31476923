use acray::{CrossProduct, DotProduct, Vec3, SCALE};

#[test]
fn dot_and_cross_are_exact() {
    let a = Vec3(1, 2, 3);
    let b = Vec3(-4, 5, 6);
    assert_eq!(a.dot(&b), 24);
    assert_eq!(a.cross(&b), Vec3(-3, -18, 13));
}

#[test]
fn magnitude_rounds_down() {
    assert_eq!(Vec3(3, 4, 0).mag(), 5);
    assert_eq!(Vec3(1, 1, 1).mag(), 1);
    assert_eq!(Vec3(i64::MIN, i64::MIN, i64::MIN).mag(), 15_975_348_984_942_515_101);
}

#[test]
fn unit_has_length_scale() {
    assert_eq!(Vec3(0, -7, 0).unit(), Vec3(0, -SCALE, 0));
    assert_eq!(Vec3(3, 4, 0).unit(), Vec3(600_000, 800_000, 0));
    assert_eq!(Vec3(SCALE, SCALE, 0).unit(), Vec3(707_107, 707_107, 0));
    // The length is rounded down before dividing: |(1,1,0)| counts as 1.
    assert_eq!(Vec3(1, 1, 0).unit(), Vec3(SCALE, SCALE, 0));
}

#[test]
fn from_components_with_mag_rescales() {
    assert_eq!(Vec3::from_components_with_mag((3, 4, 0), 10 * SCALE), Vec3(6 * SCALE, 8 * SCALE, 0));
    assert_eq!(Vec3::from_components_with_mag((0, 0, -2), 344 * SCALE), Vec3(0, 0, -344 * SCALE));
}

#[test]
fn scalar_operations_round_down() {
    let a = Vec3(3, -3, 10);
    assert_eq!(a.mul(SCALE / 2), Vec3(1, -2, 5));
    assert_eq!(a.div(2 * SCALE), Vec3(1, -2, 5));
    assert_eq!(a.div(-SCALE), Vec3(-3, 3, -10));
    let mut b = a;
    b.div_assign(SCALE / 4);
    assert_eq!(b, Vec3(12, -12, 40));
    assert_eq!(a.add(Vec3(1, 1, 1)), Vec3(4, -2, 11));
    assert_eq!(a.sub(Vec3(1, 1, 1)), Vec3(2, -4, 9));
    assert_eq!(a.neg(), Vec3(-3, 3, -10));
}
