//! The integrator: one Verlet step of every unlocked point under a constant
//! acceleration.

use crate::grid::clamp;
use crate::grid::clamp_to_world;
use crate::grid::div_round;
use crate::grid::in_range;
use crate::model::all_in_world;
use crate::model::drift;
use crate::model::integrate;
use crate::model::integrate_point;
use crate::model::PointModel;
use crate::model::UNIT_SQUARED;
use crate::model::valid_time_step;
use crate::rope::points_model;
use crate::rope::RopePoint;
use crate::vector::Vec3;
use vstd::prelude::*;

verus! {

/// The distance that the acceleration `acc` adds in one step of length `dt`.
fn drift_of(acc: i64, dt: i64) -> (d: i128)
    requires
        valid_time_step(dt as int),
    ensures
        d == drift(acc as int, dt as int),
        -0x1_0000_0000_0000_0000_0000_0000 <= d <= 0x1_0000_0000_0000_0000_0000_0000,
{
    let a: i128 = acc as i128;
    let t: i128 = dt as i128;
    assert(-0x2000_0000_0000_0000_0000_0000 <= a * t <= 0x2000_0000_0000_0000_0000_0000)
        by (nonlinear_arith)
        requires
            -0x8000_0000_0000_0000 <= a <= 0x8000_0000_0000_0000,
            0 <= t <= 0x4000_0000,
    ;
    assert(-0x800_0000_0000_0000_0000_0000_0000_0000 <= a * t * t
        <= 0x800_0000_0000_0000_0000_0000_0000_0000) by (nonlinear_arith)
        requires
            -0x2000_0000_0000_0000_0000_0000 <= a * t <= 0x2000_0000_0000_0000_0000_0000,
            0 <= t <= 0x4000_0000,
    ;
    let d: i128 = div_round(a * t * t, UNIT_SQUARED);
    assert(d == (2 * (a * t * t) + 0x100_0000_0000) / 0x200_0000_0000);
    d
}

/// One coordinate of a point after a Verlet step.
fn integrate_coordinate(position: i64, previous: i64, gain: i128) -> (c: i64)
    requires
        in_range(position as int),
        in_range(previous as int),
        -0x1_0000_0000_0000_0000_0000_0000 <= gain <= 0x1_0000_0000_0000_0000_0000_0000,
    ensures
        c == clamp_to_world(position + (position - previous) + gain),
        in_range(c as int),
{
    let here: i128 = position as i128;
    clamp(here + (here - previous as i128) + gain)
}

/// Runs the integrator over all the points.
pub(crate) fn integrate_all(points: &mut Vec<RopePoint>, acceleration: Vec3, dt: i64)
    requires
        all_in_world(points_model(old(points)@)),
        valid_time_step(dt as int),
    ensures
        final(points)@.len() == old(points)@.len(),
        points_model(final(points)@) == integrate(
            points_model(old(points)@),
            acceleration@,
            dt as int,
        ),
        all_in_world(points_model(final(points)@)),
{
    let ghost start: Seq<PointModel> = points_model(points@);
    if dt == 0 {
        assert(start =~= integrate(start, acceleration@, 0));
        return ;
    }
    let gain_x: i128 = drift_of(acceleration.x, dt);
    let gain_y: i128 = drift_of(acceleration.y, dt);
    let gain_z: i128 = drift_of(acceleration.z, dt);
    let mut i: usize = 0;
    while i < points.len()
        invariant
            0 <= i <= points@.len(),
            dt != 0,
            points@.len() == start.len(),
            gain_x == drift(acceleration.x as int, dt as int),
            gain_y == drift(acceleration.y as int, dt as int),
            gain_z == drift(acceleration.z as int, dt as int),
            -0x1_0000_0000_0000_0000_0000_0000 <= gain_x <= 0x1_0000_0000_0000_0000_0000_0000,
            -0x1_0000_0000_0000_0000_0000_0000 <= gain_y <= 0x1_0000_0000_0000_0000_0000_0000,
            -0x1_0000_0000_0000_0000_0000_0000 <= gain_z <= 0x1_0000_0000_0000_0000_0000_0000,
            all_in_world(start),
            forall|k: int|
                0 <= k < i ==> (#[trigger] points@[k])@ == integrate_point(
                    start[k],
                    acceleration@,
                    dt as int,
                ),
            forall|k: int| i <= k < points@.len() ==> (#[trigger] points@[k])@ == start[k],
        decreases points@.len() - i,
    {
        let p: RopePoint = points[i];
        assert(start[i as int].in_world());
        if !p.locked {
            let position: Vec3 = Vec3 {
                x: integrate_coordinate(p.position.x, p.previous_position.x, gain_x),
                y: integrate_coordinate(p.position.y, p.previous_position.y, gain_y),
                z: integrate_coordinate(p.position.z, p.previous_position.z, gain_z),
            };
            points.set(
                i,
                RopePoint { position, previous_position: p.position, locked: p.locked },
            );
        }
        i = i + 1;
    }
    proof {
        let after: Seq<PointModel> = points_model(points@);
        assert(after =~= integrate(start, acceleration@, dt as int));
        assert forall|k: int| 0 <= k < after.len() implies (#[trigger] after[k]).in_world() by {
            assert(start[k].in_world());
        }
    }
}

} // verus!
