use rope_sim::spawn_rope;
use rope_sim::Rope;
use rope_sim::RopeError;
use rope_sim::RopePoint;
use rope_sim::Vec3;
use rope_sim::UNIT;
use rope_sim::WORLD_LIMIT;

const SIXTIETH: i64 = 17476;

fn zero() -> Vec3 {
    Vec3::new(0, 0, 0)
}

fn units(v: Vec3) -> (f64, f64, f64) {
    let u = UNIT as f64;
    (v.x as f64 / u, v.y as f64 / u, v.z as f64 / u)
}

#[test]
fn straight_rope_stays_straight_for_sixty_ticks() {
    let left = Vec3::new(-10 * UNIT, 0, 0);
    let right = Vec3::new(10 * UNIT, 0, 0);
    let mut rope = spawn_rope(left, right, 5, 0, zero(), 10).unwrap();
    for _ in 0..60 {
        assert_eq!(rope.step(SIXTIETH), Ok(()));
    }
    let p = rope.positions();
    let rest = rope.stick(0).unwrap().rest_length;
    assert_eq!(rest, 5 * UNIT);
    for i in 0..5 {
        let (x, y, z) = units(p[i]);
        assert!((x - (-10.0 + 5.0 * i as f64)).abs() < 1e-4);
        assert!(y.abs() < 1e-4);
        assert!(z.abs() < 1e-4);
    }
    for i in 0..4 {
        let gap = p[i].distance(&p[i + 1]);
        assert!(((gap - rest) as f64 / UNIT as f64).abs() < 1e-4);
    }
    assert_eq!(
        p,
        vec![
            left,
            Vec3::new(-5 * UNIT, 0, 0),
            zero(),
            Vec3::new(5 * UNIT, 0, 0),
            right
        ]
    );
}

#[test]
fn settled_chain_remains_for_many_ticks() {
    let left = Vec3::new(0, -6 * UNIT, 3 * UNIT);
    let right = Vec3::new(0, 6 * UNIT, 3 * UNIT);
    let mut rope = spawn_rope(left, right, 4, 0, zero(), 5).unwrap();
    let start = rope.positions();
    for n in 0..2000 {
        let dt = if n % 3 == 0 { SIXTIETH } else { 2 * SIXTIETH };
        rope.step(dt).unwrap();
    }
    assert_eq!(rope.positions(), start);
    for i in 0..4 {
        let p = rope.point(i).unwrap();
        assert_eq!(p.previous_position, p.position);
    }
}

#[test]
fn chain_pushed_along_its_axis_returns_to_even_spacing() {
    let left = Vec3::new(-10 * UNIT, 0, 0);
    let right = Vec3::new(10 * UNIT, 0, 0);
    let mut rope = Rope::new(zero(), 10).unwrap();
    rope.add_point(left, true).unwrap();
    rope.add_point(Vec3::new(-5 * UNIT, 0, 0), false).unwrap();
    rope.add_point(Vec3::new(UNIT, 0, 0), false).unwrap();
    rope.add_point(Vec3::new(5 * UNIT, 0, 0), false).unwrap();
    rope.add_point(right, true).unwrap();
    for j in 0..4 {
        rope.add_stick(j, j + 1, 5 * UNIT).unwrap();
    }
    for _ in 0..1000 {
        rope.step(SIXTIETH).unwrap();
    }
    let p = rope.positions();
    for i in 0..5 {
        let (x, y, z) = units(p[i]);
        assert!((x - (-10.0 + 5.0 * i as f64)).abs() < 1e-4);
        assert_eq!(y, 0.0);
        assert_eq!(z, 0.0);
    }
    let again = rope.positions();
    rope.step(SIXTIETH).unwrap();
    assert_eq!(rope.positions(), again);
}

#[test]
fn locked_points_stay_where_the_driver_put_them() {
    let left = Vec3::new(-10 * UNIT, 0, 0);
    let right = Vec3::new(10 * UNIT, 0, 0);
    let mut rope = spawn_rope(left, right, 9, UNIT, Vec3::new(0, 0, 100 * UNIT), 10).unwrap();
    for _ in 0..200 {
        rope.step(SIXTIETH).unwrap();
        assert_eq!(rope.point(0).unwrap().position, left);
        assert_eq!(rope.point(8).unwrap().position, right);
    }
    let moved = Vec3::new(-12 * UNIT, UNIT, 0);
    assert_eq!(rope.set_anchor(0, moved), Ok(()));
    for _ in 0..200 {
        rope.step(SIXTIETH).unwrap();
        assert_eq!(
            rope.point(0),
            Some(RopePoint { position: moved, previous_position: left, locked: true })
        );
        assert_eq!(rope.point(8).unwrap().position, right);
    }
}

#[test]
fn rope_sags_with_the_current_and_keeps_its_length() {
    let left = Vec3::new(-10 * UNIT, 0, 0);
    let right = Vec3::new(10 * UNIT, 0, 0);
    let mut rope = spawn_rope(left, right, 9, UNIT, Vec3::new(0, 0, 100 * UNIT), 10).unwrap();
    for _ in 0..600 {
        rope.step(SIXTIETH).unwrap();
    }
    let p = rope.positions();
    let rest = rope.stick(0).unwrap().rest_length;
    assert_eq!(rest, 7 * UNIT / 2);
    for i in 0..9 {
        assert!(p[i].in_world());
        assert_eq!(p[i].y, 0);
    }
    for i in 1..8 {
        assert!(p[i].z > 2 * UNIT);
        assert!(p[i].z < 10 * UNIT);
    }
    for i in 0..8 {
        let gap = p[i].distance(&p[i + 1]);
        assert!(((gap - rest) as f64 / UNIT as f64).abs() < 0.05);
    }
    assert_eq!(p[4], Vec3::new(18267, 0, 9310620));
}

#[test]
fn first_tick_of_the_game_rope() {
    let left = Vec3::new(-10 * UNIT, 0, 0);
    let right = Vec3::new(10 * UNIT, 0, 0);
    let mut rope = spawn_rope(left, right, 9, UNIT, Vec3::new(0, 0, 100 * UNIT), 10).unwrap();
    rope.step(SIXTIETH).unwrap();
    assert_eq!(
        rope.positions(),
        vec![
            left,
            Vec3::new(-7284329, 0, 1609656),
            Vec3::new(-5203319, 0, -1413124),
            Vec3::new(-2726633, 0, 1295205),
            Vec3::new(-15794, 0, -1178739),
            Vec3::new(2779336, 0, 1199580),
            Vec3::new(5436368, 0, -1332223),
            Vec3::new(7318690, 0, 1817889),
            right
        ]
    );
}

#[test]
fn step_is_integration_followed_by_solving() {
    let left = Vec3::new(-10 * UNIT, 0, 0);
    let right = Vec3::new(10 * UNIT, 0, 0);
    let acceleration = Vec3::new(0, -30 * UNIT, 100 * UNIT);
    let mut whole = spawn_rope(left, right, 7, UNIT / 2, acceleration, 6).unwrap();
    let mut parts = spawn_rope(left, right, 7, UNIT / 2, acceleration, 6).unwrap();
    for _ in 0..50 {
        assert_eq!(whole.step(SIXTIETH), Ok(()));
        assert_eq!(parts.simulate_points(SIXTIETH), Ok(()));
        parts.simulate_sticks();
        assert_eq!(whole.positions(), parts.positions());
        for i in 0..7 {
            assert_eq!(whole.point(i), parts.point(i));
        }
    }
}

#[test]
fn rejected_step_changes_nothing() {
    let left = Vec3::new(-10 * UNIT, 0, 0);
    let right = Vec3::new(10 * UNIT, 0, 0);
    let mut rope = spawn_rope(left, right, 5, UNIT, Vec3::new(0, 0, 100 * UNIT), 10).unwrap();
    rope.step(SIXTIETH).unwrap();
    let before: Vec<Option<RopePoint>> = (0..5).map(|i| rope.point(i)).collect();
    assert_eq!(rope.step(-1), Err(RopeError::InvalidTimeStep));
    let after: Vec<Option<RopePoint>> = (0..5).map(|i| rope.point(i)).collect();
    assert_eq!(before, after);
}

#[test]
fn positions_stay_inside_the_world_under_a_huge_current() {
    let left = Vec3::new(WORLD_LIMIT - 20 * UNIT, 0, 0);
    let right = Vec3::new(WORLD_LIMIT, 0, 0);
    let mut rope = spawn_rope(left, right, 6, UNIT, Vec3::new(i64::MAX, i64::MIN, i64::MAX), 3)
        .unwrap();
    for _ in 0..100 {
        rope.step(UNIT).unwrap();
        for p in rope.positions() {
            assert!(p.in_world());
        }
        for i in 0..6 {
            assert!(rope.point(i).unwrap().previous_position.in_world());
        }
    }
    assert_eq!(rope.point(0).unwrap().position, left);
    assert_eq!(rope.point(5).unwrap().position, right);
}

#[test]
fn free_point_at_rest_is_not_moved_by_ticks() {
    let mut rope = Rope::new(zero(), 4).unwrap();
    rope.add_point(zero(), true).unwrap();
    rope.add_point(Vec3::new(10 * UNIT, 0, 0), false).unwrap();
    let free = rope.add_point(Vec3::new(3, 4, 5), false).unwrap();
    rope.add_stick(0, 1, 4 * UNIT).unwrap();
    for _ in 0..100 {
        rope.step(SIXTIETH).unwrap();
        assert_eq!(
            rope.point(free),
            Some(RopePoint {
                position: Vec3::new(3, 4, 5),
                previous_position: Vec3::new(3, 4, 5),
                locked: false
            })
        );
    }
    assert_ne!(rope.point(1).unwrap().position, Vec3::new(10 * UNIT, 0, 0));
}
