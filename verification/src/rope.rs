//! The rope itself: its points and links as flat arrays, the handles that
//! address them, and the construction of a chain between two anchors.

use crate::grid::div_floor;
use crate::grid::MAX_REST_LENGTH;
use crate::grid::MAX_TIME_STEP;
use crate::integrator::integrate_all;
use crate::model::integrate;
use crate::model::PointModel;
use crate::model::relax;
use crate::model::RopeModel;
use crate::model::StickModel;
use crate::model::tick;
use crate::model::valid_time_step;
use crate::solver::relax_all;
use crate::vector::Vec3;
use crate::vector::Vector;
use vstd::arithmetic::div_mod::lemma_div_is_ordered;
use vstd::arithmetic::div_mod::lemma_div_multiples_vanish;
use vstd::prelude::*;

verus! {

/// One mass of the rope.
#[derive(Clone, Copy, Debug, PartialEq, Eq, Structural)]
pub struct RopePoint {
    /// Where the point is now.
    pub position: Vec3,
    /// Where it was at the end of the integration step before.
    pub previous_position: Vec3,
    /// A locked point is an anchor: only its driver moves it.
    pub locked: bool,
}

impl View for RopePoint {
    type V = PointModel;

    open spec fn view(&self) -> PointModel {
        PointModel {
            position: self.position@,
            previous_position: self.previous_position@,
            locked: self.locked,
        }
    }
}

/// One link of the rope. It names its two ends by their index in the rope
/// and does not own them.
#[derive(Clone, Copy, Debug, PartialEq, Eq, Structural)]
pub struct RopeStick {
    pub point_a: usize,
    pub point_b: usize,
    /// The distance that the solver works towards, in grid cells.
    pub rest_length: i64,
}

impl View for RopeStick {
    type V = StickModel;

    open spec fn view(&self) -> StickModel {
        StickModel {
            point_a: self.point_a as int,
            point_b: self.point_b as int,
            rest_length: self.rest_length as int,
        }
    }
}

/// The models of a sequence of points.
pub open spec fn points_model(points: Seq<RopePoint>) -> Seq<PointModel> {
    Seq::new(points.len(), |i: int| points[i]@)
}

/// The models of a sequence of links.
pub open spec fn sticks_model(sticks: Seq<RopeStick>) -> Seq<StickModel> {
    Seq::new(sticks.len(), |j: int| sticks[j]@)
}

/// Why a request was turned down. A rope is never left half changed.
#[derive(Clone, Copy, Debug, PartialEq, Eq, Structural)]
pub enum RopeError {
    /// The time step is negative or longer than `MAX_TIME_STEP`.
    InvalidTimeStep,
    /// A position lies outside the world.
    OutOfWorld,
    /// A handle names no point of the rope.
    UnknownPoint,
    /// A link would join a point to itself.
    SamePoint,
    /// A rest length is not positive, or longer than `MAX_REST_LENGTH`.
    InvalidRestLength,
    /// A chain needs at least its two anchors.
    InvalidSubdivision,
    /// The solver needs at least one pass.
    InvalidIterations,
    /// Only a locked point can be driven from outside.
    NotLocked,
}

/// A rope: points and links in flat arrays, addressed by index.
#[derive(Debug)]
pub struct Rope {
    points: Vec<RopePoint>,
    sticks: Vec<RopeStick>,
    acceleration: Vec3,
    iterations: u32,
}

impl View for Rope {
    type V = RopeModel;

    closed spec fn view(&self) -> RopeModel {
        RopeModel {
            points: points_model(self.points@),
            sticks: sticks_model(self.sticks@),
            acceleration: self.acceleration@,
            iterations: self.iterations as nat,
        }
    }
}

/// One coordinate of point `i` of a chain with `gaps` links that runs
/// from `from` to `to`: the `i`-th of the evenly spaced values, rounded down.
pub open spec fn chain_coordinate(from: int, to: int, gaps: int, i: int) -> int {
    from + ((to - from) * i) / gaps
}

/// Point `i` of a chain of `count` points from `left` to `right`: evenly
/// spaced, at rest, and locked exactly at the two ends.
pub open spec fn chain_point(left: Vector, right: Vector, count: int, i: int) -> PointModel {
    let position = Vector {
        x: chain_coordinate(left.x, right.x, count - 1, i),
        y: chain_coordinate(left.y, right.y, count - 1, i),
        z: chain_coordinate(left.z, right.z, count - 1, i),
    };
    PointModel { position, previous_position: position, locked: i == 0 || i == count - 1 }
}

/// The rest length of every link of a chain: the even spacing of its
/// points, rounded down, plus the slack.
pub open spec fn chain_rest_length(left: Vector, right: Vector, count: int, slack: int) -> int {
    right.minus(left).length() / (count - 1) + slack
}

/// The chain that `spawn_rope` builds: `count` points from `left` to
/// `right`, and a link between each point and the next.
pub open spec fn chain(
    left: Vector,
    right: Vector,
    count: int,
    slack: int,
    acceleration: Vector,
    iterations: nat,
) -> RopeModel {
    RopeModel {
        points: Seq::new(count as nat, |i: int| chain_point(left, right, count, i)),
        sticks: Seq::new(
            (count - 1) as nat,
            |j: int|
                StickModel {
                    point_a: j,
                    point_b: j + 1,
                    rest_length: chain_rest_length(left, right, count, slack),
                },
        ),
        acceleration,
        iterations,
    }
}

/// What is wrong with a request for a chain, if anything. The first fault
/// in this order is the one reported.
pub open spec fn chain_fault(
    left: Vector,
    right: Vector,
    count: int,
    slack: int,
    iterations: int,
) -> Option<RopeError> {
    if iterations < 1 {
        Some(RopeError::InvalidIterations)
    } else if count < 2 {
        Some(RopeError::InvalidSubdivision)
    } else if !left.in_world() || !right.in_world() {
        Some(RopeError::OutOfWorld)
    } else if !(0 < chain_rest_length(left, right, count, slack) <= MAX_REST_LENGTH) {
        Some(RopeError::InvalidRestLength)
    } else {
        None
    }
}

/// An evenly spaced value between two coordinates does not leave their
/// interval.
proof fn lemma_chain_coordinate_between(from: int, to: int, gaps: int, i: int)
    requires
        0 <= i <= gaps,
        gaps > 0,
    ensures
        from <= to ==> from <= chain_coordinate(from, to, gaps, i) <= to,
        to <= from ==> to <= chain_coordinate(from, to, gaps, i) <= from,
        i == 0 ==> chain_coordinate(from, to, gaps, i) == from,
        i == gaps ==> chain_coordinate(from, to, gaps, i) == to,
{
    let d: int = to - from;
    lemma_div_multiples_vanish(d, gaps);
    lemma_div_multiples_vanish(0, gaps);
    assert(gaps * d == d * gaps) by (nonlinear_arith);
    assert(gaps * 0 == 0 && d * 0 == 0) by (nonlinear_arith);
    if d >= 0 {
        assert(0 <= d * i <= d * gaps) by (nonlinear_arith)
            requires
                d >= 0,
                0 <= i <= gaps,
        ;
        lemma_div_is_ordered(0, d * i, gaps);
        lemma_div_is_ordered(d * i, d * gaps, gaps);
    } else {
        assert(d * gaps <= d * i <= 0) by (nonlinear_arith)
            requires
                d < 0,
                0 <= i <= gaps,
        ;
        lemma_div_is_ordered(d * i, 0, gaps);
        lemma_div_is_ordered(d * gaps, d * i, gaps);
    }
}

/// One coordinate of a point of a chain.
fn chain_step(from: i64, to: i64, gaps: usize, i: usize) -> (c: i64)
    requires
        crate::grid::in_range(from as int),
        crate::grid::in_range(to as int),
        0 <= i <= gaps,
        gaps > 0,
    ensures
        c == chain_coordinate(from as int, to as int, gaps as int, i as int),
        crate::grid::in_range(c as int),
{
    let d: i128 = to as i128 - from as i128;
    let k: i128 = i as i128;
    assert(-0x200_0000_0000_0000_0000_0000_0000 <= d * k <= 0x200_0000_0000_0000_0000_0000_0000)
        by (nonlinear_arith)
        requires
            -0x200_0000_0000 <= d <= 0x200_0000_0000,
            0 <= k <= 0x1_0000_0000_0000_0000,
    ;
    let offset: i128 = div_floor(d * k, gaps as i128);
    proof {
        lemma_chain_coordinate_between(from as int, to as int, gaps as int, i as int);
    }
    (from as i128 + offset) as i64
}

/// Builds a chain between two anchors: `count` points in all, evenly spaced
/// from `left` to `right` and at rest, the two ends locked, and `count - 1`
/// links that join each point to the next, each with the even spacing plus
/// `slack` as its rest length. A request with a fault builds nothing.
pub fn spawn_rope(
    left: Vec3,
    right: Vec3,
    count: usize,
    slack: i64,
    acceleration: Vec3,
    iterations: u32,
) -> (r: Result<Rope, RopeError>)
    ensures
        match chain_fault(left@, right@, count as int, slack as int, iterations as int) {
            Some(fault) => r == Err::<Rope, RopeError>(fault),
            None => r matches Ok(rope) && rope.wf() && rope@ == chain(
                left@,
                right@,
                count as int,
                slack as int,
                acceleration@,
                iterations as nat,
            ),
        },
{
    if iterations == 0 {
        return Err(RopeError::InvalidIterations);
    }
    if count < 2 {
        return Err(RopeError::InvalidSubdivision);
    }
    if !left.in_world() || !right.in_world() {
        return Err(RopeError::OutOfWorld);
    }
    let gaps: usize = count - 1;
    let total: i64 = right.distance(&left);
    let rest: i128 = (total as i128) / (gaps as i128) + slack as i128;
    if rest <= 0 || rest > MAX_REST_LENGTH as i128 {
        return Err(RopeError::InvalidRestLength);
    }
    let mut points: Vec<RopePoint> = Vec::new();
    let mut i: usize = 0;
    while i < count
        invariant
            0 <= i <= count,
            gaps == count - 1,
            gaps > 0,
            left@.in_world(),
            right@.in_world(),
            points@.len() == i,
            forall|k: int|
                0 <= k < i ==> (#[trigger] points@[k])@ == chain_point(
                    left@,
                    right@,
                    count as int,
                    k,
                ),
            forall|k: int| 0 <= k < i ==> (#[trigger] points@[k])@.in_world(),
        decreases count - i,
    {
        let position: Vec3 = Vec3 {
            x: chain_step(left.x, right.x, gaps, i),
            y: chain_step(left.y, right.y, gaps, i),
            z: chain_step(left.z, right.z, gaps, i),
        };
        points.push(
            RopePoint { position, previous_position: position, locked: i == 0 || i == gaps },
        );
        i = i + 1;
    }
    let mut sticks: Vec<RopeStick> = Vec::new();
    let mut j: usize = 0;
    while j < gaps
        invariant
            0 <= j <= gaps,
            gaps == count - 1,
            0 < rest <= MAX_REST_LENGTH,
            sticks@.len() == j,
            forall|k: int|
                0 <= k < j ==> (#[trigger] sticks@[k])@ == (StickModel {
                    point_a: k,
                    point_b: k + 1,
                    rest_length: rest as int,
                }),
        decreases gaps - j,
    {
        sticks.push(RopeStick { point_a: j, point_b: j + 1, rest_length: rest as i64 });
        j = j + 1;
    }
    let rope: Rope = Rope { points, sticks, acceleration, iterations };
    proof {
        let want: RopeModel = chain(
            left@,
            right@,
            count as int,
            slack as int,
            acceleration@,
            iterations as nat,
        );
        assert(rope@.points =~= want.points);
        assert(rope@.sticks =~= want.sticks);
        assert(rope@ == want);
    }
    Ok(rope)
}

/// What is wrong with a request for a link between the points `point_a`
/// and `point_b` of a rope of `count` points, if anything.
pub open spec fn stick_fault(count: int, point_a: int, point_b: int, rest_length: int) -> Option<
    RopeError,
> {
    if point_a >= count || point_b >= count {
        Some(RopeError::UnknownPoint)
    } else if point_a == point_b {
        Some(RopeError::SamePoint)
    } else if !(0 < rest_length <= MAX_REST_LENGTH) {
        Some(RopeError::InvalidRestLength)
    } else {
        None
    }
}

/// What is wrong with a request to move point `index` to `position` from
/// outside, if anything.
pub open spec fn anchor_fault(points: Seq<PointModel>, index: int, position: Vector) -> Option<
    RopeError,
> {
    if index >= points.len() {
        Some(RopeError::UnknownPoint)
    } else if !points[index].locked {
        Some(RopeError::NotLocked)
    } else if !position.in_world() {
        Some(RopeError::OutOfWorld)
    } else {
        None
    }
}

impl Rope {
    /// The invariant of a rope, which every operation keeps.
    pub open spec fn wf(&self) -> bool {
        self@.well_formed()
    }

    /// The number of points.
    pub fn point_count(&self) -> (n: usize)
        ensures
            n == self@.points.len(),
    {
        self.points.len()
    }

    /// The number of links.
    pub fn stick_count(&self) -> (n: usize)
        ensures
            n == self@.sticks.len(),
    {
        self.sticks.len()
    }

    /// The point with the handle `index`, if there is one.
    pub fn point(&self, index: usize) -> (r: Option<RopePoint>)
        ensures
            index < self@.points.len() ==> (r matches Some(p) && p@ == self@.points[index as int]),
            index >= self@.points.len() ==> r is None,
    {
        if index < self.points.len() {
            Some(self.points[index])
        } else {
            None
        }
    }

    /// The link with the index `index`, if there is one.
    pub fn stick(&self, index: usize) -> (r: Option<RopeStick>)
        ensures
            index < self@.sticks.len() ==> (r matches Some(s) && s@ == self@.sticks[index as int]),
            index >= self@.sticks.len() ==> r is None,
    {
        if index < self.sticks.len() {
            Some(self.sticks[index])
        } else {
            None
        }
    }

    /// The position of every point, in the order of the handles: what a
    /// renderer reads after a tick.
    pub fn positions(&self) -> (out: Vec<Vec3>)
        ensures
            out@.len() == self@.points.len(),
            forall|i: int|
                0 <= i < out@.len() ==> (#[trigger] out@[i])@ == self@.points[i].position,
    {
        let mut out: Vec<Vec3> = Vec::new();
        let mut i: usize = 0;
        while i < self.points.len()
            invariant
                0 <= i <= self.points@.len(),
                out@.len() == i,
                forall|k: int|
                    0 <= k < i ==> (#[trigger] out@[k])@ == self.points@[k].position@,
            decreases self.points@.len() - i,
        {
            out.push(self.points[i].position);
            i = i + 1;
        }
        out
    }

    /// The acceleration that acts on every unlocked point.
    pub fn acceleration(&self) -> (acc: Vec3)
        ensures
            acc@ == self@.acceleration,
    {
        self.acceleration
    }

    /// The number of solver passes per tick.
    pub fn iterations(&self) -> (n: u32)
        ensures
            n == self@.iterations,
    {
        self.iterations
    }

    /// A rope without points or links, to be filled with `add_point` and
    /// `add_stick`.
    pub fn new(acceleration: Vec3, iterations: u32) -> (r: Result<Rope, RopeError>)
        ensures
            iterations == 0 ==> r == Err::<Rope, RopeError>(RopeError::InvalidIterations),
            iterations > 0 ==> (r matches Ok(rope) && rope.wf() && rope@ == (RopeModel {
                points: Seq::empty(),
                sticks: Seq::empty(),
                acceleration: acceleration@,
                iterations: iterations as nat,
            })),
    {
        if iterations == 0 {
            return Err(RopeError::InvalidIterations);
        }
        let rope: Rope = Rope { points: Vec::new(), sticks: Vec::new(), acceleration, iterations };
        proof {
            assert(rope@.points =~= Seq::empty());
            assert(rope@.sticks =~= Seq::empty());
        }
        Ok(rope)
    }

    /// Adds a point at rest at `position` and returns its handle.
    pub fn add_point(&mut self, position: Vec3, locked: bool) -> (r: Result<usize, RopeError>)
        requires
            old(self).wf(),
        ensures
            final(self).wf(),
            position@.in_world() ==> r == Ok::<usize, RopeError>(old(self)@.points.len() as usize)
                && final(self)@ == (RopeModel {
                points: old(self)@.points.push(
                    PointModel { position: position@, previous_position: position@, locked },
                ),
                ..old(self)@
            }),
            !position@.in_world() ==> r == Err::<usize, RopeError>(RopeError::OutOfWorld)
                && final(self)@ == old(self)@,
    {
        if !position.in_world() {
            return Err(RopeError::OutOfWorld);
        }
        let ghost before: RopeModel = self@;
        let index: usize = self.points.len();
        self.points.push(RopePoint { position, previous_position: position, locked });
        proof {
            let added: PointModel = PointModel {
                position: position@,
                previous_position: position@,
                locked,
            };
            assert(self@.points =~= before.points.push(added));
            assert forall|i: int| 0 <= i < self@.points.len() implies (
            #[trigger] self@.points[i]).in_world() by {
                if i < before.points.len() {
                    assert(before.points[i].in_world());
                }
            }
            assert forall|j: int| 0 <= j < self@.sticks.len() implies (
            #[trigger] self@.sticks[j]).valid_for(self@.points.len()) by {
                assert(before.sticks[j].valid_for(before.points.len()));
            }
        }
        Ok(index)
    }

    /// Adds a link between two points of the rope and returns its index.
    /// Links are relaxed in the order in which they were added.
    pub fn add_stick(&mut self, point_a: usize, point_b: usize, rest_length: i64) -> (r: Result<
        usize,
        RopeError,
    >)
        requires
            old(self).wf(),
        ensures
            final(self).wf(),
            match stick_fault(
                old(self)@.points.len() as int,
                point_a as int,
                point_b as int,
                rest_length as int,
            ) {
                Some(fault) => r == Err::<usize, RopeError>(fault) && final(self)@ == old(self)@,
                None => r == Ok::<usize, RopeError>(old(self)@.sticks.len() as usize)
                    && final(self)@ == (RopeModel {
                    sticks: old(self)@.sticks.push(
                        StickModel {
                            point_a: point_a as int,
                            point_b: point_b as int,
                            rest_length: rest_length as int,
                        },
                    ),
                    ..old(self)@
                }),
            },
    {
        if point_a >= self.points.len() || point_b >= self.points.len() {
            return Err(RopeError::UnknownPoint);
        }
        if point_a == point_b {
            return Err(RopeError::SamePoint);
        }
        if rest_length <= 0 || rest_length > MAX_REST_LENGTH {
            return Err(RopeError::InvalidRestLength);
        }
        let ghost before: RopeModel = self@;
        let index: usize = self.sticks.len();
        self.sticks.push(RopeStick { point_a, point_b, rest_length });
        proof {
            let added: StickModel = StickModel {
                point_a: point_a as int,
                point_b: point_b as int,
                rest_length: rest_length as int,
            };
            assert(self@.sticks =~= before.sticks.push(added));
            assert(self@.points =~= before.points);
            assert forall|j: int| 0 <= j < self@.sticks.len() implies (
            #[trigger] self@.sticks[j]).valid_for(self@.points.len()) by {
                if j < before.sticks.len() {
                    assert(before.sticks[j].valid_for(before.points.len()));
                }
            }
        }
        Ok(index)
    }

    /// Moves a locked point from outside: the driver of an anchor writes its
    /// position here before a tick. Nothing else of the rope changes.
    pub fn set_anchor(&mut self, index: usize, position: Vec3) -> (r: Result<(), RopeError>)
        requires
            old(self).wf(),
        ensures
            final(self).wf(),
            match anchor_fault(old(self)@.points, index as int, position@) {
                Some(fault) => r == Err::<(), RopeError>(fault) && final(self)@ == old(self)@,
                None => r is Ok && final(self)@ == (RopeModel {
                    points: old(self)@.points.update(
                        index as int,
                        PointModel { position: position@, ..old(self)@.points[index as int] },
                    ),
                    ..old(self)@
                }),
            },
    {
        if index >= self.points.len() {
            return Err(RopeError::UnknownPoint);
        }
        let point: RopePoint = self.points[index];
        assert(self@.points[index as int] == point@);
        if !point.locked {
            return Err(RopeError::NotLocked);
        }
        if !position.in_world() {
            return Err(RopeError::OutOfWorld);
        }
        let ghost before: RopeModel = self@;
        self.points.set(
            index,
            RopePoint {
                position,
                previous_position: point.previous_position,
                locked: point.locked,
            },
        );
        proof {
            let moved: PointModel = PointModel {
                position: position@,
                ..before.points[index as int]
            };
            assert(self@.points =~= before.points.update(index as int, moved));
            assert forall|i: int| 0 <= i < self@.points.len() implies (
            #[trigger] self@.points[i]).in_world() by {
                assert(before.points[i].in_world());
            }
        }
        Ok(())
    }

    /// The integrator: one Verlet step of every unlocked point under the
    /// rope's acceleration. A time step that is negative or too long is
    /// turned down and changes nothing; a time step of zero changes nothing
    /// either.
    pub fn simulate_points(&mut self, dt: i64) -> (r: Result<(), RopeError>)
        requires
            old(self).wf(),
        ensures
            final(self).wf(),
            final(self)@.points.len() == old(self)@.points.len(),
            valid_time_step(dt as int) ==> r is Ok && final(self)@ == (RopeModel {
                points: integrate(old(self)@.points, old(self)@.acceleration, dt as int),
                ..old(self)@
            }),
            !valid_time_step(dt as int) ==> r == Err::<(), RopeError>(
                RopeError::InvalidTimeStep,
            ) && final(self)@ == old(self)@,
    {
        if dt < 0 || dt > MAX_TIME_STEP {
            return Err(RopeError::InvalidTimeStep);
        }
        integrate_all(&mut self.points, self.acceleration, dt);
        Ok(())
    }

    /// The solver: as many passes over all the links as the rope asks for,
    /// each link relaxed in the order in which the links were added.
    pub fn simulate_sticks(&mut self)
        requires
            old(self).wf(),
        ensures
            final(self).wf(),
            final(self)@.points.len() == old(self)@.points.len(),
            final(self)@ == (RopeModel {
                points: relax(old(self)@.points, old(self)@.sticks, old(self)@.iterations),
                ..old(self)@
            }),
    {
        relax_all(&mut self.points, &self.sticks, self.iterations);
    }

    /// One tick of the simulation: the integrator, and then the solver on
    /// the positions that the integrator produced.
    pub fn step(&mut self, dt: i64) -> (r: Result<(), RopeError>)
        requires
            old(self).wf(),
        ensures
            final(self).wf(),
            final(self)@.points.len() == old(self)@.points.len(),
            valid_time_step(dt as int) ==> r is Ok && final(self)@ == tick(old(self)@, dt as int),
            !valid_time_step(dt as int) ==> r == Err::<(), RopeError>(
                RopeError::InvalidTimeStep,
            ) && final(self)@ == old(self)@,
    {
        match self.simulate_points(dt) {
            Ok(()) => {
                self.simulate_sticks();
                Ok(())
            },
            Err(fault) => Err(fault),
        }
    }
}

} // verus!
