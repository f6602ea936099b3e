//! The constraint solver: repeated passes over the links, each link pulling
//! its unlocked ends towards its rest length.

use crate::grid::clamp;
use crate::grid::div_round;
use crate::grid::in_range;
use crate::grid::lemma_floor_sqrt_zero;
use crate::grid::MAX_REST_LENGTH;
use crate::model::all_in_world;
use crate::model::all_valid;
use crate::model::PointModel;
use crate::model::pulled;
use crate::model::pulled_position;
use crate::model::relax;
use crate::model::relax_pass;
use crate::model::relax_stick;
use crate::model::StickModel;
use crate::rope::points_model;
use crate::rope::RopePoint;
use crate::rope::RopeStick;
use crate::rope::sticks_model;
use crate::vector::Vec3;
use crate::vector::Vector;
use vstd::prelude::*;

verus! {

/// Two different positions are at least one cell apart.
pub proof fn lemma_length_positive(p: Vector, q: Vector)
    ensures
        p.minus(q).length() == 0 <==> p == q,
{
    let d: Vector = p.minus(q);
    assert(d.norm_squared() >= 0 && (d.norm_squared() == 0 <==> (d.x == 0 && d.y == 0 && d.z
        == 0))) by (nonlinear_arith)
        requires
            d.norm_squared() == d.x * d.x + d.y * d.y + d.z * d.z,
    ;
    lemma_floor_sqrt_zero(d.norm_squared());
}

/// A pass over the first `j + 1` links is a pass over the first `j`
/// followed by the relaxation of link `j`.
pub proof fn lemma_relax_pass_step(points: Seq<PointModel>, sticks: Seq<StickModel>, j: int)
    requires
        0 <= j < sticks.len(),
    ensures
        relax_pass(points, sticks.take(j + 1)) == relax_stick(
            relax_pass(points, sticks.take(j)),
            sticks[j],
        ),
{
    assert(sticks.take(j + 1).drop_last() =~= sticks.take(j));
}

/// One coordinate of an end of a link after the link was pulled to its
/// rest length, before it is held to the world.
fn pull(p: i64, q: i64, rest: i64, len: i64) -> (c: i128)
    requires
        in_range(p as int),
        in_range(q as int),
        0 < rest <= MAX_REST_LENGTH,
        0 < len <= MAX_REST_LENGTH,
    ensures
        c == pulled(p as int, q as int, rest as int, len as int),
{
    let sum: i128 = p as i128 + q as i128;
    let diff: i128 = p as i128 - q as i128;
    let wide_len: i128 = len as i128;
    let wide_rest: i128 = rest as i128;
    assert(-0x8_0000_0000_0000_0000_0000 <= sum * wide_len <= 0x8_0000_0000_0000_0000_0000)
        by (nonlinear_arith)
        requires
            -0x200_0000_0000 <= sum <= 0x200_0000_0000,
            0 < wide_len <= 0x400_0000_0000,
    ;
    assert(-0x8_0000_0000_0000_0000_0000 <= diff * wide_rest <= 0x8_0000_0000_0000_0000_0000)
        by (nonlinear_arith)
        requires
            -0x200_0000_0000 <= diff <= 0x200_0000_0000,
            0 < wide_rest <= 0x400_0000_0000,
    ;
    div_round(sum * wide_len + diff * wide_rest, 2 * wide_len)
}

/// Where the end `p` of a link goes when its other end is `q`.
fn pull_position(p: Vec3, q: Vec3, rest: i64, len: i64) -> (v: Vec3)
    requires
        p@.in_world(),
        q@.in_world(),
        0 < rest <= MAX_REST_LENGTH,
        0 < len <= MAX_REST_LENGTH,
    ensures
        v@ == pulled_position(p@, q@, rest as int, len as int),
        v@.in_world(),
{
    Vec3 {
        x: clamp(pull(p.x, q.x, rest, len)),
        y: clamp(pull(p.y, q.y, rest, len)),
        z: clamp(pull(p.z, q.z, rest, len)),
    }
}

/// Relaxes one link once.
pub(crate) fn relax_one(points: &mut Vec<RopePoint>, stick: RopeStick)
    requires
        all_in_world(points_model(old(points)@)),
        stick@.valid_for(old(points)@.len()),
    ensures
        final(points)@.len() == old(points)@.len(),
        points_model(final(points)@) == relax_stick(points_model(old(points)@), stick@),
        all_in_world(points_model(final(points)@)),
{
    let ghost before: Seq<PointModel> = points_model(points@);
    let a: RopePoint = points[stick.point_a];
    let b: RopePoint = points[stick.point_b];
    assert(before[stick.point_a as int] == a@ && before[stick.point_b as int] == b@);
    assert(a@.in_world() && b@.in_world());
    if a.position.x == b.position.x && a.position.y == b.position.y && a.position.z
        == b.position.z {
        return ;
    }
    let len: i64 = a.position.distance(&b.position);
    proof {
        lemma_length_positive(a.position@, b.position@);
    }
    let new_a: Vec3 = pull_position(a.position, b.position, stick.rest_length, len);
    let new_b: Vec3 = pull_position(b.position, a.position, stick.rest_length, len);
    if !a.locked {
        points.set(
            stick.point_a,
            RopePoint {
                position: new_a,
                previous_position: a.previous_position,
                locked: a.locked,
            },
        );
    }
    if !b.locked {
        points.set(
            stick.point_b,
            RopePoint {
                position: new_b,
                previous_position: b.previous_position,
                locked: b.locked,
            },
        );
    }
    proof {
        let after: Seq<PointModel> = points_model(points@);
        assert(after =~= relax_stick(before, stick@));
        assert forall|i: int| 0 <= i < after.len() implies (#[trigger] after[i]).in_world() by {
            assert(before[i].in_world());
        }
    }
}

/// Runs the solver: `iterations` passes over all the links, in their order.
pub(crate) fn relax_all(points: &mut Vec<RopePoint>, sticks: &Vec<RopeStick>, iterations: u32)
    requires
        all_in_world(points_model(old(points)@)),
        all_valid(sticks_model(sticks@), old(points)@.len()),
    ensures
        final(points)@.len() == old(points)@.len(),
        points_model(final(points)@) == relax(
            points_model(old(points)@),
            sticks_model(sticks@),
            iterations as nat,
        ),
        all_in_world(points_model(final(points)@)),
{
    let ghost start: Seq<PointModel> = points_model(points@);
    let ghost links: Seq<StickModel> = sticks_model(sticks@);
    let ghost count: nat = points@.len();
    let mut pass: u32 = 0;
    while pass < iterations
        invariant
            0 <= pass <= iterations,
            points@.len() == count,
            links == sticks_model(sticks@),
            all_valid(links, count),
            all_in_world(points_model(points@)),
            points_model(points@) == relax(start, links, pass as nat),
        decreases iterations - pass,
    {
        let ghost pass_start: Seq<PointModel> = points_model(points@);
        let mut j: usize = 0;
        while j < sticks.len()
            invariant
                0 <= j <= sticks.len(),
                points@.len() == count,
                links == sticks_model(sticks@),
                all_valid(links, count),
                all_in_world(points_model(points@)),
                points_model(points@) == relax_pass(pass_start, links.take(j as int)),
            decreases sticks.len() - j,
        {
            let stick: RopeStick = sticks[j];
            proof {
                assert(links[j as int] == stick@);
                lemma_relax_pass_step(pass_start, links, j as int);
            }
            relax_one(points, stick);
            j = j + 1;
        }
        proof {
            assert(links.take(sticks.len() as int) =~= links);
        }
        pass = pass + 1;
    }
}

} // verus!
