//! The mathematical model of a rope and of one simulation tick: what the
//! integrator and the solver compute, stated over sequences and unbounded
//! integers.

use crate::grid::MAX_REST_LENGTH;
use crate::grid::MAX_TIME_STEP;
use crate::grid::round_div;
use crate::vector::Vector;
use vstd::prelude::*;

verus! {

/// `UNIT * UNIT`: the divisor that brings acceleration times time squared
/// back to grid cells.
pub const UNIT_SQUARED: i128 = 1_099_511_627_776;

/// One mass of the rope.
pub struct PointModel {
    /// Where the point is now.
    pub position: Vector,
    /// Where it was at the end of the integration step before.
    pub previous_position: Vector,
    /// A locked point is moved from outside only.
    pub locked: bool,
}

/// One link of the rope: it holds two points a rest length apart.
pub struct StickModel {
    pub point_a: int,
    pub point_b: int,
    pub rest_length: int,
}

/// A rope: its points, its links, the constant acceleration that acts on
/// every unlocked point, and the number of solver passes per tick.
pub struct RopeModel {
    pub points: Seq<PointModel>,
    pub sticks: Seq<StickModel>,
    pub acceleration: Vector,
    pub iterations: nat,
}

impl PointModel {
    /// Both positions lie inside the world.
    pub open spec fn in_world(self) -> bool {
        self.position.in_world() && self.previous_position.in_world()
    }

    /// The point has no velocity.
    pub open spec fn at_rest(self) -> bool {
        self.position == self.previous_position
    }
}

impl StickModel {
    /// The link joins two distinct points out of `count` and has a positive
    /// rest length.
    pub open spec fn valid_for(self, count: nat) -> bool {
        &&& 0 <= self.point_a < count
        &&& 0 <= self.point_b < count
        &&& self.point_a != self.point_b
        &&& 0 < self.rest_length <= MAX_REST_LENGTH
    }
}

/// Every point of the sequence lies inside the world.
pub open spec fn all_in_world(points: Seq<PointModel>) -> bool {
    forall|i: int| 0 <= i < points.len() ==> (#[trigger] points[i]).in_world()
}

/// Every link of the sequence is valid for `count` points.
pub open spec fn all_valid(sticks: Seq<StickModel>, count: nat) -> bool {
    forall|j: int| 0 <= j < sticks.len() ==> (#[trigger] sticks[j]).valid_for(count)
}

impl RopeModel {
    /// The invariant of a rope: points inside the world, links between
    /// distinct existing points with positive rest lengths, at least one
    /// solver pass.
    pub open spec fn well_formed(self) -> bool {
        &&& all_in_world(self.points)
        &&& all_valid(self.sticks, self.points.len())
        &&& self.iterations >= 1
    }
}

/// The time steps that a tick accepts.
pub open spec fn valid_time_step(dt: int) -> bool {
    0 <= dt <= MAX_TIME_STEP
}

/// The distance that a constant acceleration `acc` adds in one step of
/// length `dt`, in grid cells: `acc * dt * dt`, rounded to the nearest cell
/// (a half rounds up).
pub open spec fn drift(acc: int, dt: int) -> int {
    round_div(acc * dt * dt, UNIT_SQUARED as int)
}

/// `drift` on each coordinate.
pub open spec fn drift_vector(acc: Vector, dt: int) -> Vector {
    Vector { x: drift(acc.x, dt), y: drift(acc.y, dt), z: drift(acc.z, dt) }
}

/// One Verlet step of one point. A locked point is left alone, and so is
/// every point when no time passes. Otherwise the point keeps its velocity,
/// `position - previous_position`, gains the drift of the acceleration, and
/// stops at the wall of the world if it would leave it.
pub open spec fn integrate_point(p: PointModel, acc: Vector, dt: int) -> PointModel {
    if p.locked || dt == 0 {
        p
    } else {
        PointModel {
            position: p.position.plus(p.position.minus(p.previous_position)).plus(
                drift_vector(acc, dt),
            ).clamped(),
            previous_position: p.position,
            locked: p.locked,
        }
    }
}

/// The integrator: one Verlet step of every point.
pub open spec fn integrate(points: Seq<PointModel>, acc: Vector, dt: int) -> Seq<PointModel> {
    Seq::new(points.len(), |i: int| integrate_point(points[i], acc, dt))
}

/// The integrator alone, run once for each time step of `steps`, in order.
pub open spec fn integrate_each(points: Seq<PointModel>, acc: Vector, steps: Seq<int>) -> Seq<
    PointModel,
>
    decreases steps.len(),
{
    if steps.len() == 0 {
        points
    } else {
        integrate(integrate_each(points, acc, steps.drop_last()), acc, steps.last())
    }
}

/// One coordinate of the end `p` of a link after the link has been brought
/// to its rest length about its centre: the centre `(p + q) / 2` plus half
/// the rest length along the direction `(p - q) / len`. The exact value is
/// rounded to the nearest cell in one step (a half rounds up).
pub open spec fn pulled(p: int, q: int, rest: int, len: int) -> int {
    round_div((p + q) * len + (p - q) * rest, 2 * len)
}

/// Where the end `p` of a link of current length `len` and rest length
/// `rest` goes when its other end is `q`.
pub open spec fn pulled_position(p: Vector, q: Vector, rest: int, len: int) -> Vector {
    Vector {
        x: pulled(p.x, q.x, rest, len),
        y: pulled(p.y, q.y, rest, len),
        z: pulled(p.z, q.z, rest, len),
    }.clamped()
}

/// One relaxation of one link. Both new positions are computed from the
/// positions before; only unlocked ends move. A link whose ends coincide
/// has no direction and is skipped.
pub open spec fn relax_stick(points: Seq<PointModel>, stick: StickModel) -> Seq<PointModel> {
    let a = points[stick.point_a];
    let b = points[stick.point_b];
    let len = a.position.minus(b.position).length();
    if a.position == b.position {
        points
    } else {
        let new_a = PointModel {
            position: pulled_position(a.position, b.position, stick.rest_length, len),
            ..a
        };
        let new_b = PointModel {
            position: pulled_position(b.position, a.position, stick.rest_length, len),
            ..b
        };
        let after_a = if a.locked {
            points
        } else {
            points.update(stick.point_a, new_a)
        };
        if b.locked {
            after_a
        } else {
            after_a.update(stick.point_b, new_b)
        }
    }
}

/// One solver pass: every link relaxed once, in the order of the sequence,
/// each seeing what the links before it have moved.
pub open spec fn relax_pass(points: Seq<PointModel>, sticks: Seq<StickModel>) -> Seq<PointModel>
    decreases sticks.len(),
{
    if sticks.len() == 0 {
        points
    } else {
        relax_stick(relax_pass(points, sticks.drop_last()), sticks.last())
    }
}

/// The solver: `passes` passes over all links.
pub open spec fn relax(points: Seq<PointModel>, sticks: Seq<StickModel>, passes: nat) -> Seq<
    PointModel,
>
    decreases passes,
{
    if passes == 0 {
        points
    } else {
        relax_pass(relax(points, sticks, (passes - 1) as nat), sticks)
    }
}

/// One tick: the integrator, then the solver on what it produced.
pub open spec fn tick(rope: RopeModel, dt: int) -> RopeModel {
    RopeModel {
        points: relax(
            integrate(rope.points, rope.acceleration, dt),
            rope.sticks,
            rope.iterations,
        ),
        ..rope
    }
}

/// A run of ticks, one for each time step of `steps`, in order.
pub open spec fn run(rope: RopeModel, steps: Seq<int>) -> RopeModel
    decreases steps.len(),
{
    if steps.len() == 0 {
        rope
    } else {
        tick(run(rope, steps.drop_last()), steps.last())
    }
}

} // verus!
