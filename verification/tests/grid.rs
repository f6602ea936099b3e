use rope_sim::grid::clamp;
use rope_sim::grid::div_floor;
use rope_sim::grid::div_round;
use rope_sim::grid::isqrt;
use rope_sim::Vec3;
use rope_sim::MAX_REST_LENGTH;
use rope_sim::MAX_TIME_STEP;
use rope_sim::UNIT;
use rope_sim::WORLD_LIMIT;

#[test]
fn constants_are_powers_of_two() {
    assert_eq!(UNIT, 1i64 << 20);
    assert_eq!(WORLD_LIMIT, 1i64 << 40);
    assert_eq!(MAX_REST_LENGTH, 1i64 << 42);
    assert_eq!(MAX_TIME_STEP, 1i64 << 30);
}

#[test]
fn div_floor_rounds_towards_negative_infinity() {
    assert_eq!(div_floor(7, 2), 3);
    assert_eq!(div_floor(-7, 2), -4);
    assert_eq!(div_floor(-8, 2), -4);
    assert_eq!(div_floor(-1, 3), -1);
    assert_eq!(div_floor(0, 5), 0);
    assert_eq!(div_floor(9, 3), 3);
}

#[test]
fn div_round_rounds_to_nearest_and_halves_up() {
    assert_eq!(div_round(7, 2), 4);
    assert_eq!(div_round(-7, 2), -3);
    assert_eq!(div_round(5, 4), 1);
    assert_eq!(div_round(-5, 4), -1);
    assert_eq!(div_round(1, 4), 0);
    assert_eq!(div_round(-1, 4), 0);
    assert_eq!(div_round(3, 4), 1);
    assert_eq!(div_round(-3, 4), -1);
    assert_eq!(div_round(12, 4), 3);
}

#[test]
fn isqrt_rounds_down() {
    assert_eq!(isqrt(0), 0);
    assert_eq!(isqrt(1), 1);
    assert_eq!(isqrt(3), 1);
    assert_eq!(isqrt(4), 2);
    assert_eq!(isqrt(24), 4);
    assert_eq!(isqrt(25), 5);
    assert_eq!(isqrt(26), 5);
    assert_eq!(isqrt(1u128 << 80), 1u64 << 40);
    assert_eq!(isqrt((1u128 << 80) - 1), (1u64 << 40) - 1);
    assert_eq!(isqrt(u128::MAX), u64::MAX);
}

#[test]
fn clamp_holds_values_to_the_world() {
    assert_eq!(clamp(0), 0);
    assert_eq!(clamp(-5), -5);
    assert_eq!(clamp(WORLD_LIMIT as i128), WORLD_LIMIT);
    assert_eq!(clamp(WORLD_LIMIT as i128 + 1), WORLD_LIMIT);
    assert_eq!(clamp(-(WORLD_LIMIT as i128) - 1), -WORLD_LIMIT);
    assert_eq!(clamp(i128::MAX), WORLD_LIMIT);
    assert_eq!(clamp(i128::MIN), -WORLD_LIMIT);
}

#[test]
fn vec3_new_keeps_its_coordinates() {
    let v = Vec3::new(1, -2, 3);
    assert_eq!(v, Vec3 { x: 1, y: -2, z: 3 });
}

#[test]
fn vec3_in_world_checks_every_coordinate() {
    assert!(Vec3::new(WORLD_LIMIT, -WORLD_LIMIT, 0).in_world());
    assert!(!Vec3::new(WORLD_LIMIT + 1, 0, 0).in_world());
    assert!(!Vec3::new(0, -WORLD_LIMIT - 1, 0).in_world());
    assert!(!Vec3::new(0, 0, i64::MAX).in_world());
}

#[test]
fn vec3_distance_is_the_rounded_down_length() {
    let origin = Vec3::new(0, 0, 0);
    assert_eq!(origin.distance(&Vec3::new(3, 4, 0)), 5);
    assert_eq!(Vec3::new(3, 4, 12).distance(&origin), 13);
    assert_eq!(origin.distance(&Vec3::new(1, 1, 1)), 1);
    assert_eq!(origin.distance(&origin), 0);
    assert_eq!(Vec3::new(-10 * UNIT, 0, 0).distance(&Vec3::new(10 * UNIT, 0, 0)), 20 * UNIT);
    let corner = Vec3::new(WORLD_LIMIT, WORLD_LIMIT, WORLD_LIMIT);
    let opposite = Vec3::new(-WORLD_LIMIT, -WORLD_LIMIT, -WORLD_LIMIT);
    let diagonal = corner.distance(&opposite);
    assert!(diagonal <= MAX_REST_LENGTH);
    let d = diagonal as i128;
    let n = 12 * (WORLD_LIMIT as i128) * (WORLD_LIMIT as i128);
    assert!(d * d <= n && n < (d + 1) * (d + 1));
}
