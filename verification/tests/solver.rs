use rope_sim::Rope;
use rope_sim::RopePoint;
use rope_sim::Vec3;
use rope_sim::UNIT;
use rope_sim::WORLD_LIMIT;

fn zero() -> Vec3 {
    Vec3::new(0, 0, 0)
}

fn pair(a: Vec3, a_locked: bool, b: Vec3, b_locked: bool, rest: i64, iterations: u32) -> Rope {
    let mut rope = Rope::new(zero(), iterations).unwrap();
    rope.add_point(a, a_locked).unwrap();
    rope.add_point(b, b_locked).unwrap();
    rope.add_stick(0, 1, rest).unwrap();
    rope
}

#[test]
fn free_link_shrinks_about_its_centre() {
    let mut rope = pair(zero(), false, Vec3::new(10 * UNIT, 0, 0), false, 4 * UNIT, 1);
    rope.simulate_sticks();
    assert_eq!(rope.positions(), vec![Vec3::new(3 * UNIT, 0, 0), Vec3::new(7 * UNIT, 0, 0)]);
    assert_eq!(rope.point(0).unwrap().previous_position, zero());
    assert_eq!(rope.point(1).unwrap().previous_position, Vec3::new(10 * UNIT, 0, 0));
}

#[test]
fn free_link_grows_along_its_direction() {
    let mut rope = pair(zero(), false, Vec3::new(3 * UNIT, 4 * UNIT, 0), false, 10 * UNIT, 1);
    rope.simulate_sticks();
    assert_eq!(
        rope.positions(),
        vec![
            Vec3::new(-3 * UNIT / 2, -2 * UNIT, 0),
            Vec3::new(9 * UNIT / 2, 6 * UNIT, 0)
        ]
    );
}

#[test]
fn locked_end_does_not_move() {
    let mut rope = pair(zero(), true, Vec3::new(10 * UNIT, 0, 0), false, 4 * UNIT, 1);
    rope.simulate_sticks();
    assert_eq!(rope.positions(), vec![zero(), Vec3::new(7 * UNIT, 0, 0)]);
    rope.simulate_sticks();
    assert_eq!(rope.positions(), vec![zero(), Vec3::new(11 * UNIT / 2, 0, 0)]);
    let mut other = pair(zero(), false, Vec3::new(10 * UNIT, 0, 0), true, 4 * UNIT, 1);
    other.simulate_sticks();
    assert_eq!(other.positions(), vec![Vec3::new(3 * UNIT, 0, 0), Vec3::new(10 * UNIT, 0, 0)]);
}

#[test]
fn passes_halve_the_error_of_a_half_locked_link() {
    let mut rope = pair(zero(), true, Vec3::new(10 * UNIT, 0, 0), false, 4 * UNIT, 10);
    rope.simulate_sticks();
    assert_eq!(rope.positions(), vec![zero(), Vec3::new(4 * UNIT + 6 * UNIT / 1024, 0, 0)]);
}

#[test]
fn link_between_locked_ends_does_nothing() {
    let mut rope = pair(zero(), true, Vec3::new(10 * UNIT, 0, 0), true, 4 * UNIT, 10);
    rope.simulate_sticks();
    assert_eq!(rope.positions(), vec![zero(), Vec3::new(10 * UNIT, 0, 0)]);
}

#[test]
fn coincident_ends_are_left_alone() {
    let at = Vec3::new(5, -7, 11);
    let mut rope = pair(at, false, at, false, 4 * UNIT, 10);
    rope.simulate_sticks();
    assert_eq!(rope.positions(), vec![at, at]);
    assert_eq!(rope.step(17476), Ok(()));
    assert_eq!(
        rope.point(0),
        Some(RopePoint { position: at, previous_position: at, locked: false })
    );
    assert_eq!(
        rope.point(1),
        Some(RopePoint { position: at, previous_position: at, locked: false })
    );
}

#[test]
fn one_coincident_link_does_not_stop_the_others() {
    let mut rope = Rope::new(zero(), 1).unwrap();
    rope.add_point(zero(), false).unwrap();
    rope.add_point(zero(), false).unwrap();
    rope.add_point(zero(), true).unwrap();
    rope.add_point(Vec3::new(10 * UNIT, 0, 0), false).unwrap();
    rope.add_stick(0, 1, UNIT).unwrap();
    rope.add_stick(2, 3, 4 * UNIT).unwrap();
    rope.simulate_sticks();
    assert_eq!(rope.positions(), vec![zero(), zero(), zero(), Vec3::new(7 * UNIT, 0, 0)]);
}

#[test]
fn later_links_see_what_earlier_links_moved() {
    let mut rope = Rope::new(zero(), 1).unwrap();
    rope.add_point(zero(), true).unwrap();
    rope.add_point(Vec3::new(10 * UNIT, 0, 0), false).unwrap();
    rope.add_point(Vec3::new(20 * UNIT, 0, 0), false).unwrap();
    rope.add_stick(0, 1, 4 * UNIT).unwrap();
    rope.add_stick(1, 2, 4 * UNIT).unwrap();
    rope.simulate_sticks();
    assert_eq!(
        rope.positions(),
        vec![zero(), Vec3::new(23 * UNIT / 2, 0, 0), Vec3::new(31 * UNIT / 2, 0, 0)]
    );
}

#[test]
fn links_are_relaxed_in_the_order_they_were_added() {
    let mut rope = Rope::new(zero(), 1).unwrap();
    rope.add_point(zero(), true).unwrap();
    rope.add_point(Vec3::new(10 * UNIT, 0, 0), false).unwrap();
    rope.add_point(Vec3::new(20 * UNIT, 0, 0), false).unwrap();
    rope.add_stick(1, 2, 4 * UNIT).unwrap();
    rope.add_stick(0, 1, 4 * UNIT).unwrap();
    rope.simulate_sticks();
    assert_eq!(
        rope.positions(),
        vec![zero(), Vec3::new(17 * UNIT / 2, 0, 0), Vec3::new(17 * UNIT, 0, 0)]
    );
}

#[test]
fn branching_topology_is_solved() {
    let mut rope = Rope::new(zero(), 1).unwrap();
    rope.add_point(zero(), true).unwrap();
    rope.add_point(Vec3::new(10 * UNIT, 0, 0), false).unwrap();
    rope.add_point(Vec3::new(0, 10 * UNIT, 0), false).unwrap();
    rope.add_point(Vec3::new(0, 0, -10 * UNIT), false).unwrap();
    rope.add_stick(0, 1, 4 * UNIT).unwrap();
    rope.add_stick(0, 2, 4 * UNIT).unwrap();
    rope.add_stick(0, 3, 4 * UNIT).unwrap();
    rope.simulate_sticks();
    assert_eq!(
        rope.positions(),
        vec![
            zero(),
            Vec3::new(7 * UNIT, 0, 0),
            Vec3::new(0, 7 * UNIT, 0),
            Vec3::new(0, 0, -7 * UNIT)
        ]
    );
}

#[test]
fn pulled_positions_round_to_nearest_cell() {
    let mut rope = pair(zero(), false, Vec3::new(7, 0, 0), false, 2, 1);
    rope.simulate_sticks();
    assert_eq!(rope.positions(), vec![Vec3::new(3, 0, 0), Vec3::new(5, 0, 0)]);
    let mut rope = pair(zero(), false, Vec3::new(1, 1, 1), false, 5, 1);
    rope.simulate_sticks();
    assert_eq!(rope.positions(), vec![Vec3::new(-2, -2, -2), Vec3::new(3, 3, 3)]);
}

#[test]
fn link_at_rest_length_is_a_fixed_point() {
    let a = Vec3::new(UNIT + 1, -7, 3);
    let b = Vec3::new(UNIT + 4, -3, 15);
    let mut rope = pair(a, false, b, false, 13, 10);
    rope.simulate_sticks();
    assert_eq!(rope.positions(), vec![a, b]);
}

#[test]
fn five_passes_bring_a_link_closer_to_rest_length() {
    let a = Vec3::new(UNIT, 2 * UNIT, 3 * UNIT);
    let b = Vec3::new(4 * UNIT, -2 * UNIT, 9 * UNIT);
    let rest = 3 * UNIT;
    let before = (a.distance(&b) - rest).abs();
    assert_eq!(a.distance(&b), 8189640);
    let mut rope = pair(a, false, b, false, rest, 5);
    rope.simulate_sticks();
    let p = rope.positions();
    let after = (p[0].distance(&p[1]) - rest).abs();
    assert!(after < before);
    assert!(after <= 2);
    assert_eq!(p, vec![Vec3::new(2017286, 805538, 5083148), Vec3::new(3225594, -805538, 7499764)]);
}

#[test]
fn every_pass_brings_a_stretched_link_closer() {
    let a = Vec3::new(-40 * UNIT, 13 * UNIT, 0);
    let b = Vec3::new(25 * UNIT, -8 * UNIT, 31 * UNIT);
    let rest = 5 * UNIT;
    let mut rope = pair(a, true, b, false, rest, 1);
    let mut error = (a.distance(&b) - rest).abs();
    for _ in 0..12 {
        rope.simulate_sticks();
        let p = rope.positions();
        let next = (p[0].distance(&p[1]) - rest).abs();
        assert!(next < error);
        error = next;
    }
}

#[test]
fn solver_holds_points_to_the_world() {
    let a = Vec3::new(WORLD_LIMIT, WORLD_LIMIT, -WORLD_LIMIT);
    let b = Vec3::new(WORLD_LIMIT - 3, WORLD_LIMIT, -WORLD_LIMIT);
    let mut rope = pair(a, false, b, false, 1000, 3);
    rope.simulate_sticks();
    let p = rope.positions();
    assert!(p[0].in_world());
    assert!(p[1].in_world());
    assert_eq!(p[0], Vec3::new(WORLD_LIMIT, WORLD_LIMIT, -WORLD_LIMIT));
}
