//! What holds of every rope and every run of the simulation, proved over
//! the model.

use crate::grid::floor_sqrt;
use crate::grid::lemma_floor_sqrt;
use crate::model::all_in_world;
use crate::model::all_valid;
use crate::model::drift;
use crate::model::integrate;
use crate::model::integrate_each;
use crate::model::integrate_point;
use crate::model::PointModel;
use crate::model::pulled;
use crate::model::pulled_position;
use crate::model::relax;
use crate::model::relax_pass;
use crate::model::relax_stick;
use crate::model::RopeModel;
use crate::model::run;
use crate::model::StickModel;
use crate::rope::chain;
use crate::rope::chain_coordinate;
use crate::vector::Vector;
use vstd::arithmetic::div_mod::lemma_div_multiples_vanish;
use vstd::arithmetic::div_mod::lemma_div_multiples_vanish_fancy;
use vstd::arithmetic::div_mod::lemma_fundamental_div_mod;
use vstd::arithmetic::div_mod::lemma_fundamental_div_mod_converse;
use vstd::prelude::*;

verus! {

/// `after` has the points of `before`, each locked or not as before, and
/// its locked points are exactly as they were.
pub open spec fn locked_kept(before: Seq<PointModel>, after: Seq<PointModel>) -> bool {
    &&& after.len() == before.len()
    &&& forall|i: int|
        0 <= i < before.len() ==> (#[trigger] after[i]).locked == before[i].locked
    &&& forall|i: int| 0 <= i < before.len() && before[i].locked ==> #[trigger] after[i] == before[i]
}

/// No link of `sticks` ends at point `i`.
pub open spec fn untouched(sticks: Seq<StickModel>, i: int) -> bool {
    forall|j: int|
        0 <= j < sticks.len() ==> (#[trigger] sticks[j]).point_a != i && sticks[j].point_b != i
}

/// The integrator keeps every locked point as it is.
pub proof fn lemma_integrate_keeps_locked(points: Seq<PointModel>, acc: Vector, dt: int)
    ensures
        locked_kept(points, integrate(points, acc, dt)),
{
}

/// Relaxing a link keeps every locked point as it is, and moves no point
/// that is not one of its ends.
pub proof fn lemma_relax_stick_keeps_locked(points: Seq<PointModel>, stick: StickModel)
    requires
        stick.valid_for(points.len()),
    ensures
        locked_kept(points, relax_stick(points, stick)),
        forall|i: int|
            0 <= i < points.len() && i != stick.point_a && i != stick.point_b ==> relax_stick(
                points,
                stick,
            )[i] == points[i],
{
}

/// A solver pass keeps every locked point as it is, and moves no point at
/// which no link ends.
pub proof fn lemma_relax_pass_keeps_locked(points: Seq<PointModel>, sticks: Seq<StickModel>)
    requires
        all_valid(sticks, points.len()),
    ensures
        locked_kept(points, relax_pass(points, sticks)),
        forall|i: int|
            0 <= i < points.len() && untouched(sticks, i) ==> relax_pass(points, sticks)[i]
                == points[i],
    decreases sticks.len(),
{
    if sticks.len() > 0 {
        let front: Seq<StickModel> = sticks.drop_last();
        assert forall|j: int| 0 <= j < front.len() implies (#[trigger] front[j]).valid_for(
            points.len(),
        ) by {
            assert(front[j] == sticks[j]);
        }
        lemma_relax_pass_keeps_locked(points, front);
        let middle: Seq<PointModel> = relax_pass(points, front);
        assert(sticks.last() == sticks[sticks.len() - 1]);
        lemma_relax_stick_keeps_locked(middle, sticks.last());
        assert forall|i: int| 0 <= i < points.len() && untouched(sticks, i) implies relax_pass(
            points,
            sticks,
        )[i] == points[i] by {
            assert forall|j: int| 0 <= j < front.len() implies (#[trigger] front[j]).point_a != i
                && front[j].point_b != i by {
                assert(front[j] == sticks[j]);
            }
            assert(untouched(front, i));
        }
    }
}

/// The solver keeps every locked point as it is, and moves no point at
/// which no link ends.
pub proof fn lemma_relax_keeps_locked(
    points: Seq<PointModel>,
    sticks: Seq<StickModel>,
    passes: nat,
)
    requires
        all_valid(sticks, points.len()),
    ensures
        locked_kept(points, relax(points, sticks, passes)),
        forall|i: int|
            0 <= i < points.len() && untouched(sticks, i) ==> relax(points, sticks, passes)[i]
                == points[i],
    decreases passes,
{
    if passes > 0 {
        lemma_relax_keeps_locked(points, sticks, (passes - 1) as nat);
        lemma_relax_pass_keeps_locked(relax(points, sticks, (passes - 1) as nat), sticks);
    }
}

/// A run of ticks changes neither the links nor the settings of a rope, nor
/// the number of its points, and keeps every locked point as it is.
pub proof fn lemma_run_keeps_locked(rope: RopeModel, steps: Seq<int>)
    requires
        all_valid(rope.sticks, rope.points.len()),
    ensures
        run(rope, steps).sticks == rope.sticks,
        run(rope, steps).acceleration == rope.acceleration,
        run(rope, steps).iterations == rope.iterations,
        locked_kept(rope.points, run(rope, steps).points),
    decreases steps.len(),
{
    if steps.len() > 0 {
        lemma_run_keeps_locked(rope, steps.drop_last());
        let before: RopeModel = run(rope, steps.drop_last());
        let moved: Seq<PointModel> = integrate(before.points, before.acceleration, steps.last());
        lemma_integrate_keeps_locked(before.points, before.acceleration, steps.last());
        lemma_relax_keeps_locked(moved, before.sticks, before.iterations);
    }
}

/// Locked invariance: whatever the time steps, a run of ticks leaves every
/// locked point exactly where its driver put it.
pub proof fn law_locked_points_stay(rope: RopeModel, steps: Seq<int>, i: int)
    requires
        rope.well_formed(),
        0 <= i < rope.points.len(),
        rope.points[i].locked,
    ensures
        run(rope, steps).points.len() == rope.points.len(),
        run(rope, steps).points[i] == rope.points[i],
{
    lemma_run_keeps_locked(rope, steps);
}

/// A point at rest inside the world is not moved by the integrator when
/// there is no acceleration.
pub proof fn lemma_integrate_point_at_rest(p: PointModel, dt: int)
    requires
        p.at_rest(),
        p.in_world(),
    ensures
        integrate_point(p, Vector::zero(), dt) == p,
{
    assert(0 * dt * dt == 0) by (nonlinear_arith);
    assert(drift(0, dt) == (2 * 0 + 0x100_0000_0000) / 0x200_0000_0000);
}

/// Integration correctness: with no acceleration, any number of integrator
/// steps, whatever their time steps, leaves a point that starts at rest
/// where it is.
pub proof fn law_rest_without_acceleration(points: Seq<PointModel>, steps: Seq<int>, i: int)
    requires
        0 <= i < points.len(),
        points[i].at_rest(),
        points[i].in_world(),
    ensures
        integrate_each(points, Vector::zero(), steps).len() == points.len(),
        integrate_each(points, Vector::zero(), steps)[i] == points[i],
    decreases steps.len(),
{
    if steps.len() > 0 {
        law_rest_without_acceleration(points, steps.drop_last(), i);
        lemma_integrate_point_at_rest(points[i], steps.last());
    }
}

/// The same of whole ticks: with no acceleration, a run of ticks leaves a
/// point that starts at rest where it is, if no link ends at it.
pub proof fn law_free_point_at_rest_stays(rope: RopeModel, steps: Seq<int>, i: int)
    requires
        rope.well_formed(),
        rope.acceleration == Vector::zero(),
        0 <= i < rope.points.len(),
        rope.points[i].at_rest(),
        untouched(rope.sticks, i),
    ensures
        run(rope, steps).points.len() == rope.points.len(),
        run(rope, steps).points[i] == rope.points[i],
    decreases steps.len(),
{
    lemma_run_keeps_locked(rope, steps);
    if steps.len() > 0 {
        law_free_point_at_rest_stays(rope, steps.drop_last(), i);
        lemma_run_keeps_locked(rope, steps.drop_last());
        let before: RopeModel = run(rope, steps.drop_last());
        lemma_integrate_point_at_rest(rope.points[i], steps.last());
        let moved: Seq<PointModel> = integrate(before.points, before.acceleration, steps.last());
        lemma_relax_keeps_locked(moved, before.sticks, before.iterations);
    }
}

/// Idempotence under a zero time step: the integrator called any number of
/// times with a time step of zero changes no point at all.
pub proof fn law_zero_time_step_changes_nothing(
    points: Seq<PointModel>,
    acc: Vector,
    steps: Seq<int>,
)
    requires
        forall|k: int| 0 <= k < steps.len() ==> steps[k] == 0,
    ensures
        integrate_each(points, acc, steps) == points,
    decreases steps.len(),
{
    if steps.len() > 0 {
        law_zero_time_step_changes_nothing(points, acc, steps.drop_last());
        assert(integrate(points, acc, 0) =~= points);
    }
}

/// Degenerate-direction safety: a link whose two ends coincide has no
/// direction, and relaxing it moves nothing; so the solver, however many
/// passes it makes, leaves a rope whose only link is such a link as it is.
pub proof fn law_coincident_ends_stay(points: Seq<PointModel>, stick: StickModel, passes: nat)
    requires
        stick.valid_for(points.len()),
        points[stick.point_a].position == points[stick.point_b].position,
    ensures
        relax_stick(points, stick) == points,
        relax(points, seq![stick], passes) == points,
    decreases passes,
{
    if passes > 0 {
        law_coincident_ends_stay(points, stick, (passes - 1) as nat);
        let only: Seq<StickModel> = seq![stick];
        assert(only.drop_last() =~= Seq::<StickModel>::empty());
        assert(only.last() == stick);
        assert(relax_pass(points, only.drop_last()) == points);
    }
}

/// Every unlocked point is at rest and every link has exactly its rest
/// length, rounded down to whole cells.
pub open spec fn settled(rope: RopeModel) -> bool {
    &&& forall|i: int|
        0 <= i < rope.points.len() && !(#[trigger] rope.points[i]).locked
            ==> rope.points[i].at_rest()
    &&& forall|j: int|
        0 <= j < rope.sticks.len() ==> rope.points[(#[trigger] rope.sticks[j]).point_a].position.minus(
            rope.points[rope.sticks[j].point_b].position,
        ).length() == rope.sticks[j].rest_length
}

/// An end of a link that has its rest length is pulled to where it is.
pub proof fn lemma_pulled_at_rest_length(p: int, q: int, rest: int)
    requires
        rest > 0,
    ensures
        pulled(p, q, rest, rest) == p,
{
    let exact: int = (p + q) * rest + (p - q) * rest;
    assert(2 * exact + 2 * rest == (2 * (2 * rest)) * p + 2 * rest) by (nonlinear_arith)
        requires
            exact == (p + q) * rest + (p - q) * rest,
    ;
    lemma_div_multiples_vanish_fancy(p, 2 * rest, 2 * (2 * rest));
}

/// Relaxing a link that has its rest length moves nothing.
pub proof fn lemma_relax_stick_at_rest_length(points: Seq<PointModel>, stick: StickModel)
    requires
        all_in_world(points),
        stick.valid_for(points.len()),
        points[stick.point_a].position.minus(points[stick.point_b].position).length()
            == stick.rest_length,
    ensures
        relax_stick(points, stick) == points,
{
    let a: PointModel = points[stick.point_a];
    let b: PointModel = points[stick.point_b];
    let rest: int = stick.rest_length;
    assert(a.in_world() && b.in_world());
    lemma_pulled_at_rest_length(a.position.x, b.position.x, rest);
    lemma_pulled_at_rest_length(a.position.y, b.position.y, rest);
    lemma_pulled_at_rest_length(a.position.z, b.position.z, rest);
    lemma_pulled_at_rest_length(b.position.x, a.position.x, rest);
    lemma_pulled_at_rest_length(b.position.y, a.position.y, rest);
    lemma_pulled_at_rest_length(b.position.z, a.position.z, rest);
    assert(pulled_position(a.position, b.position, rest, rest) == a.position);
    assert(pulled_position(b.position, a.position, rest, rest) == b.position);
    assert(relax_stick(points, stick) =~= points);
}

/// The solver moves nothing when every link has its rest length.
pub proof fn lemma_relax_pass_settled(rope: RopeModel, upto: int)
    requires
        rope.well_formed(),
        settled(rope),
        0 <= upto <= rope.sticks.len(),
    ensures
        relax_pass(rope.points, rope.sticks.take(upto)) == rope.points,
    decreases upto,
{
    if upto > 0 {
        lemma_relax_pass_settled(rope, upto - 1);
        let stick: StickModel = rope.sticks[upto - 1];
        assert(rope.sticks.take(upto).drop_last() =~= rope.sticks.take(upto - 1));
        assert(rope.sticks.take(upto).last() == stick);
        assert(stick.valid_for(rope.points.len()));
        lemma_relax_stick_at_rest_length(rope.points, stick);
    }
}

/// Any number of solver passes moves nothing when every link has its rest
/// length.
pub proof fn lemma_relax_settled(rope: RopeModel, passes: nat)
    requires
        rope.well_formed(),
        settled(rope),
    ensures
        relax(rope.points, rope.sticks, passes) == rope.points,
    decreases passes,
{
    if passes > 0 {
        lemma_relax_settled(rope, (passes - 1) as nat);
        lemma_relax_pass_settled(rope, rope.sticks.len() as int);
        assert(rope.sticks.take(rope.sticks.len() as int) =~= rope.sticks);
    }
}

/// A settled rope without acceleration is a fixed point of the simulation:
/// whatever the time steps, a run of ticks leaves every point of it where
/// it is.
pub proof fn law_settled_rope_stays(rope: RopeModel, steps: Seq<int>)
    requires
        rope.well_formed(),
        rope.acceleration == Vector::zero(),
        settled(rope),
    ensures
        run(rope, steps) == rope,
    decreases steps.len(),
{
    if steps.len() > 0 {
        law_settled_rope_stays(rope, steps.drop_last());
        let dt: int = steps.last();
        assert forall|i: int| 0 <= i < rope.points.len() implies integrate_point(
            #[trigger] rope.points[i],
            rope.acceleration,
            dt,
        ) == rope.points[i] by {
            if !rope.points[i].locked {
                lemma_integrate_point_at_rest(rope.points[i], dt);
            }
        }
        assert(integrate(rope.points, rope.acceleration, dt) =~= rope.points);
        lemma_relax_pass_settled(rope, rope.sticks.len() as int);
        assert(rope.sticks.take(rope.sticks.len() as int) =~= rope.sticks);
        lemma_relax_settled(rope, rope.iterations);
    }
}

/// The rounded-down square root of `n` lies between two numbers whose
/// squares enclose `n`.
pub proof fn lemma_root_between(n: int, low: int, high: int)
    requires
        0 <= low,
        low * low <= n,
        n < high * high,
        0 <= high,
    ensures
        low <= floor_sqrt(n) < high,
{
    assert(n >= 0) by (nonlinear_arith)
        requires
            low * low <= n,
    ;
    lemma_floor_sqrt(n);
    let root: int = floor_sqrt(n);
    assert(low <= root) by (nonlinear_arith)
        requires
            0 <= low,
            0 <= root,
            low * low <= n,
            n < (root + 1) * (root + 1),
    ;
    assert(root < high) by (nonlinear_arith)
        requires
            0 <= high,
            0 <= root,
            root * root <= n,
            n < high * high,
    ;
}

/// A vector stretched `k` times is `k` times as long, and dividing its
/// rounded-down length by `k` gives the rounded-down length of the vector.
pub proof fn lemma_stretched_length(v: Vector, k: int)
    requires
        k >= 1,
    ensures
        (Vector { x: v.x * k, y: v.y * k, z: v.z * k }).length() / k == v.length(),
{
    let n: int = v.norm_squared();
    let len: int = v.length();
    let long: Vector = Vector { x: v.x * k, y: v.y * k, z: v.z * k };
    let kk: int = k * k;
    assert((v.x * k) * (v.x * k) == kk * (v.x * v.x)) by (nonlinear_arith)
        requires
            kk == k * k,
    ;
    assert((v.y * k) * (v.y * k) == kk * (v.y * v.y)) by (nonlinear_arith)
        requires
            kk == k * k,
    ;
    assert((v.z * k) * (v.z * k) == kk * (v.z * v.z)) by (nonlinear_arith)
        requires
            kk == k * k,
    ;
    assert(kk * (v.x * v.x + v.y * v.y + v.z * v.z) == kk * (v.x * v.x) + kk * (v.y * v.y) + kk
        * (v.z * v.z)) by (nonlinear_arith);
    assert(n >= 0) by (nonlinear_arith)
        requires
            n == v.x * v.x + v.y * v.y + v.z * v.z,
    ;
    assert(long.norm_squared() == (k * k) * n);
    lemma_floor_sqrt(n);
    assert((k * len) * (k * len) <= (k * k) * n && (k * k) * n < (k * len + k) * (k * len + k)
        && 0 <= k * len) by (nonlinear_arith)
        requires
            k >= 1,
            0 <= len,
            len * len <= n,
            n < (len + 1) * (len + 1),
    ;
    lemma_root_between((k * k) * n, k * len, k * len + k);
    let root: int = long.length();
    assert(len * k == k * len) by (nonlinear_arith);
    lemma_fundamental_div_mod_converse(root, k, len, root - k * len);
}

/// Where a coordinate of a chain divides evenly, the points of the chain
/// are whole steps apart.
pub proof fn lemma_even_chain_coordinate(from: int, to: int, gaps: int, i: int)
    requires
        gaps >= 1,
        (to - from) % gaps == 0,
    ensures
        chain_coordinate(from, to, gaps, i) == from + ((to - from) / gaps) * i,
        to - from == ((to - from) / gaps) * gaps,
{
    let d: int = to - from;
    let step: int = d / gaps;
    lemma_fundamental_div_mod(d, gaps);
    assert(d * i == gaps * (step * i) && d == step * gaps) by (nonlinear_arith)
        requires
            d == gaps * step,
    ;
    lemma_div_multiples_vanish(step * i, gaps);
}

/// A chain without slack whose anchors are a whole number of steps apart
/// in every coordinate is settled from the start: every link has exactly
/// its rest length and every point is at rest.
pub proof fn law_even_chain_is_settled(
    left: Vector,
    right: Vector,
    count: int,
    acceleration: Vector,
    iterations: nat,
)
    requires
        count >= 2,
        (right.x - left.x) % (count - 1) == 0,
        (right.y - left.y) % (count - 1) == 0,
        (right.z - left.z) % (count - 1) == 0,
    ensures
        settled(chain(left, right, count, 0, acceleration, iterations)),
{
    let rope: RopeModel = chain(left, right, count, 0, acceleration, iterations);
    let gaps: int = count - 1;
    let step: Vector = Vector {
        x: (right.x - left.x) / gaps,
        y: (right.y - left.y) / gaps,
        z: (right.z - left.z) / gaps,
    };
    let back: Vector = Vector { x: -step.x, y: -step.y, z: -step.z };
    lemma_even_chain_coordinate(left.x, right.x, gaps, 0);
    lemma_even_chain_coordinate(left.y, right.y, gaps, 0);
    lemma_even_chain_coordinate(left.z, right.z, gaps, 0);
    assert(right.minus(left) == (Vector { x: step.x * gaps, y: step.y * gaps, z: step.z * gaps }));
    lemma_stretched_length(step, gaps);
    assert(back.norm_squared() == step.norm_squared()) by (nonlinear_arith)
        requires
            back.x == -step.x,
            back.y == -step.y,
            back.z == -step.z,
            back.norm_squared() == back.x * back.x + back.y * back.y + back.z * back.z,
            step.norm_squared() == step.x * step.x + step.y * step.y + step.z * step.z,
    ;
    assert forall|j: int| 0 <= j < rope.sticks.len() implies rope.points[(
    #[trigger] rope.sticks[j]).point_a].position.minus(
        rope.points[rope.sticks[j].point_b].position,
    ).length() == rope.sticks[j].rest_length by {
        lemma_even_chain_coordinate(left.x, right.x, gaps, j);
        lemma_even_chain_coordinate(left.y, right.y, gaps, j);
        lemma_even_chain_coordinate(left.z, right.z, gaps, j);
        lemma_even_chain_coordinate(left.x, right.x, gaps, j + 1);
        lemma_even_chain_coordinate(left.y, right.y, gaps, j + 1);
        lemma_even_chain_coordinate(left.z, right.z, gaps, j + 1);
        assert(step.x * (j + 1) == step.x * j + step.x && step.y * (j + 1) == step.y * j
            + step.y && step.z * (j + 1) == step.z * j + step.z) by (nonlinear_arith);
        assert(rope.points[j].position.minus(rope.points[j + 1].position) == back);
    }
}

/// Chain stability: a chain without slack and without acceleration, whose
/// anchors are a whole number of steps apart in every coordinate, stays as
/// it was built through any run of ticks.
pub proof fn law_even_chain_stays(
    left: Vector,
    right: Vector,
    count: int,
    iterations: nat,
    steps: Seq<int>,
)
    requires
        count >= 2,
        (right.x - left.x) % (count - 1) == 0,
        (right.y - left.y) % (count - 1) == 0,
        (right.z - left.z) % (count - 1) == 0,
        chain(left, right, count, 0, Vector::zero(), iterations).well_formed(),
    ensures
        run(chain(left, right, count, 0, Vector::zero(), iterations), steps) == chain(
            left,
            right,
            count,
            0,
            Vector::zero(),
            iterations,
        ),
{
    law_even_chain_is_settled(left, right, count, Vector::zero(), iterations);
    law_settled_rope_stays(chain(left, right, count, 0, Vector::zero(), iterations), steps);
}

} // verus!
