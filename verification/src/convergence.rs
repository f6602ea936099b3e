//! How close one relaxation brings a link to its rest length, with the
//! rounding of the grid taken into account.

use crate::grid::is_floor_sqrt;
use crate::grid::lemma_floor_sqrt;
use crate::grid::round_div;
use crate::grid::WORLD_LIMIT;
use crate::model::PointModel;
use crate::model::pulled;
use crate::model::pulled_position;
use crate::model::relax;
use crate::model::relax_pass;
use crate::model::relax_stick;
use crate::model::StickModel;
use crate::vector::Vector;
use vstd::arithmetic::div_mod::lemma_fundamental_div_mod;
use vstd::prelude::*;

verus! {

/// How far a length is from a rest length.
pub open spec fn off_by(len: int, rest: int) -> int {
    if len >= rest {
        len - rest
    } else {
        rest - len
    }
}

/// The ends `p` and `q` of a link after the link was pulled to its rest
/// length, before they are held to the world.
pub open spec fn pulled_ends(p: Vector, q: Vector, rest: int) -> (Vector, Vector) {
    let len = p.minus(q).length();
    (
        Vector {
            x: pulled(p.x, q.x, rest, len),
            y: pulled(p.y, q.y, rest, len),
            z: pulled(p.z, q.z, rest, len),
        },
        Vector {
            x: pulled(q.x, p.x, rest, len),
            y: pulled(q.y, p.y, rest, len),
            z: pulled(q.z, p.z, rest, len),
        },
    )
}

/// A rounded quotient is off the exact one by at most a half.
pub proof fn lemma_round_div_bounds(n: int, d: int)
    requires
        d > 0,
    ensures
        -d <= 2 * n - 2 * (d * round_div(n, d)) < d,
{
    lemma_fundamental_div_mod(2 * n + d, 2 * d);
    let q: int = round_div(n, d);
    assert((2 * d) * q == 2 * (d * q)) by (nonlinear_arith);
}

/// After a relaxation one coordinate of the separation of the two ends is
/// the old one scaled by `rest / len`, to within one cell.
pub proof fn lemma_pulled_separation(p: int, q: int, rest: int, len: int)
    requires
        len > 0,
    ensures
        -len < len * (pulled(p, q, rest, len) - pulled(q, p, rest, len)) - rest * (p - q) < len,
{
    let a: int = pulled(p, q, rest, len);
    let b: int = pulled(q, p, rest, len);
    let exact_a: int = (p + q) * len + (p - q) * rest;
    let exact_b: int = (q + p) * len + (q - p) * rest;
    lemma_round_div_bounds(exact_a, 2 * len);
    lemma_round_div_bounds(exact_b, 2 * len);
    assert(exact_a - exact_b == 2 * (rest * (p - q))) by (nonlinear_arith)
        requires
            exact_a == (p + q) * len + (p - q) * rest,
            exact_b == (q + p) * len + (q - p) * rest,
    ;
    assert((2 * len) * a - (2 * len) * b == 2 * (len * (a - b))) by (nonlinear_arith);
}

/// No coordinate of a vector is longer than the vector.
pub proof fn lemma_coordinate_within_length(v: Vector)
    ensures
        -v.length() <= v.x <= v.length(),
        -v.length() <= v.y <= v.length(),
        -v.length() <= v.z <= v.length(),
        v.length() * v.length() <= v.norm_squared(),
        v.norm_squared() <= v.length() * v.length() + 2 * v.length(),
{
    let n: int = v.norm_squared();
    assert(n >= 0 && v.x * v.x <= n && v.y * v.y <= n && v.z * v.z <= n) by (nonlinear_arith)
        requires
            n == v.x * v.x + v.y * v.y + v.z * v.z,
    ;
    lemma_floor_sqrt(n);
    let len: int = v.length();
    assert(is_floor_sqrt(n, len));
    lemma_below_root(v.x, n, len);
    lemma_below_root(v.y, n, len);
    lemma_below_root(v.z, n, len);
    assert((len + 1) * (len + 1) == len * len + 2 * len + 1) by (nonlinear_arith);
}

/// A number whose square is at most `n` is, up to its sign, at most the
/// rounded-down square root of `n`.
proof fn lemma_below_root(c: int, n: int, root: int)
    by (nonlinear_arith)
    requires
        c * c <= n,
        0 <= root,
        n < (root + 1) * (root + 1),
    ensures
        -root <= c <= root,
{
}

/// One coordinate's share of the squared length after a relaxation.
proof fn lemma_scaled_square(d: int, after: int, rest: int, len: int)
    requires
        len >= 1,
        rest >= 1,
        -len <= d <= len,
        -len < len * after - rest * d < len,
    ensures
        (len * after) * (len * after) >= (rest * d) * (rest * d) - 2 * (rest * (len * len)),
        (len * after) * (len * after) <= (rest * d) * (rest * d) + 2 * (rest * (len * len)) + len
            * len,
{
    let x: int = len * after;
    let y: int = rest * d;
    let e: int = x - y;
    assert(-(rest * len) <= y <= rest * len) by (nonlinear_arith)
        requires
            y == rest * d,
            rest >= 1,
            -len <= d <= len,
    ;
    assert(-(rest * (len * len)) <= y * e <= rest * (len * len)) by (nonlinear_arith)
        requires
            -(rest * len) <= y <= rest * len,
            -len < e < len,
            rest >= 1,
            len >= 1,
    ;
    assert(0 <= e * e <= len * len) by (nonlinear_arith)
        requires
            -len < e < len,
    ;
    assert(x * x == y * y + 2 * (y * e) + e * e) by (nonlinear_arith)
        requires
            e == x - y,
    ;
}

/// The squared length of the separation after a relaxation, times the
/// square of the length before, lies close to the square of `rest * len`.
pub proof fn lemma_relaxed_norm(before: Vector, after: Vector, rest: int)
    requires
        rest >= 1,
        before.length() >= 1,
        -before.length() < before.length() * after.x - rest * before.x < before.length(),
        -before.length() < before.length() * after.y - rest * before.y < before.length(),
        -before.length() < before.length() * after.z - rest * before.z < before.length(),
    ensures
        (before.length() * before.length()) * after.norm_squared() >= (before.length()
            * before.length()) * (rest * rest - 6 * rest),
        (before.length() * before.length()) * after.norm_squared() <= (before.length() * rest
            + rest + 4 * before.length()) * (before.length() * rest + rest + 4
            * before.length()),
{
    let len: int = before.length();
    lemma_coordinate_within_length(before);
    lemma_scaled_square(before.x, after.x, rest, len);
    lemma_scaled_square(before.y, after.y, rest, len);
    lemma_scaled_square(before.z, after.z, rest, len);
    let sx: int = (len * after.x) * (len * after.x);
    let sy: int = (len * after.y) * (len * after.y);
    let sz: int = (len * after.z) * (len * after.z);
    let tx: int = (rest * before.x) * (rest * before.x);
    let ty: int = (rest * before.y) * (rest * before.y);
    let tz: int = (rest * before.z) * (rest * before.z);
    let n: int = before.norm_squared();
    let rl2: int = rest * (len * len);
    assert(sx + sy + sz == (len * len) * after.norm_squared()) by (nonlinear_arith)
        requires
            sx == (len * after.x) * (len * after.x),
            sy == (len * after.y) * (len * after.y),
            sz == (len * after.z) * (len * after.z),
            after.norm_squared() == after.x * after.x + after.y * after.y + after.z * after.z,
    ;
    assert(tx + ty + tz == (rest * rest) * n) by (nonlinear_arith)
        requires
            tx == (rest * before.x) * (rest * before.x),
            ty == (rest * before.y) * (rest * before.y),
            tz == (rest * before.z) * (rest * before.z),
            n == before.x * before.x + before.y * before.y + before.z * before.z,
    ;
    assert((rest * rest) * n >= (rest * rest) * (len * len)) by (nonlinear_arith)
        requires
            n >= len * len,
    ;
    assert((rest * rest) * n <= (rest * rest) * (len * len + 2 * len)) by (nonlinear_arith)
        requires
            n <= len * len + 2 * len,
    ;
    assert((len * len) * (rest * rest - 6 * rest) == (rest * rest) * (len * len) - 6 * rl2)
        by (nonlinear_arith)
        requires
            rl2 == rest * (len * len),
    ;
    assert((len * rest + rest + 4 * len) * (len * rest + rest + 4 * len) >= (rest * rest) * (len
        * len + 2 * len) + 6 * rl2 + 3 * (len * len)) by (nonlinear_arith)
        requires
            rl2 == rest * (len * len),
            rest >= 1,
            len >= 1,
    ;
}

/// One relaxation of a link that moves both ends, neither of them stopped
/// by the wall, brings the length of the link to no less than six cells
/// under its rest length, and to no more than `4 + rest / len` cells over
/// it, where `len` is the length before.
pub proof fn lemma_relaxed_length(p: Vector, q: Vector, rest: int)
    requires
        rest >= 1,
        p != q,
    ensures
        ({
            let len = p.minus(q).length();
            let ends = pulled_ends(p, q, rest);
            let after = ends.0.minus(ends.1).length();
            &&& len >= 1
            &&& after >= rest - 6
            &&& len * after <= len * rest + rest + 4 * len
        }),
{
    let before: Vector = p.minus(q);
    let len: int = before.length();
    crate::solver::lemma_length_positive(p, q);
    lemma_coordinate_within_length(before);
    let ends = pulled_ends(p, q, rest);
    let apart: Vector = ends.0.minus(ends.1);
    lemma_pulled_separation(p.x, q.x, rest, len);
    lemma_pulled_separation(p.y, q.y, rest, len);
    lemma_pulled_separation(p.z, q.z, rest, len);
    lemma_relaxed_norm(before, apart, rest);
    lemma_coordinate_within_length(apart);
    let after: int = apart.length();
    let n: int = apart.norm_squared();
    let bound: int = len * rest + rest + 4 * len;
    assert(len * after <= bound) by (nonlinear_arith)
        requires
            after * after <= n,
            (len * len) * n <= bound * bound,
            len >= 1,
            after >= 0,
            bound >= 0,
    ;
    if rest > 6 {
        assert(n >= rest * rest - 6 * rest) by (nonlinear_arith)
            requires
                (len * len) * n >= (len * len) * (rest * rest - 6 * rest),
                len >= 1,
        ;
        assert(after >= rest - 6) by (nonlinear_arith)
            requires
                n <= after * after + 2 * after,
                n >= rest * rest - 6 * rest,
                rest > 6,
                after >= 0,
        ;
    }
}

/// Constraint convergence, for one relaxation: a link with two unlocked
/// ends that is off its rest length by more than `6 + rest / len` cells,
/// where `len` is its length, is strictly closer to its rest length after
/// a relaxation that the wall of the world does not stop.
pub proof fn law_relaxation_brings_link_closer(points: Seq<PointModel>, stick: StickModel)
    requires
        stick.valid_for(points.len()),
        !points[stick.point_a].locked,
        !points[stick.point_b].locked,
        points[stick.point_a].position != points[stick.point_b].position,
        ({
            let ends = pulled_ends(
                points[stick.point_a].position,
                points[stick.point_b].position,
                stick.rest_length,
            );
            ends.0.in_world() && ends.1.in_world()
        }),
        ({
            let len = points[stick.point_a].position.minus(
                points[stick.point_b].position,
            ).length();
            off_by(len, stick.rest_length) * len > stick.rest_length + 6 * len
        }),
    ensures
        ({
            let before = points[stick.point_a].position.minus(
                points[stick.point_b].position,
            ).length();
            let relaxed = relax_stick(points, stick);
            let after = relaxed[stick.point_a].position.minus(
                relaxed[stick.point_b].position,
            ).length();
            off_by(after, stick.rest_length) < off_by(before, stick.rest_length)
        }),
{
    let p: Vector = points[stick.point_a].position;
    let q: Vector = points[stick.point_b].position;
    let rest: int = stick.rest_length;
    let len: int = p.minus(q).length();
    let ends = pulled_ends(p, q, rest);
    lemma_relaxed_length(p, q, rest);
    crate::solver::lemma_length_positive(q, p);
    lemma_length_symmetric(p, q);
    assert(pulled_position(p, q, rest, len) == ends.0);
    assert(pulled_position(q, p, rest, len) == ends.1);
    let relaxed: Seq<PointModel> = relax_stick(points, stick);
    assert(relaxed[stick.point_a].position == ends.0);
    assert(relaxed[stick.point_b].position == ends.1);
    let after: int = ends.0.minus(ends.1).length();
    let off: int = off_by(len, rest);
    assert(off > 6 && len * (after - rest) < off * len) by (nonlinear_arith)
        requires
            off * len > rest + 6 * len,
            len * after <= len * rest + rest + 4 * len,
            len >= 1,
            rest >= 1,
    ;
    assert(after - rest < off) by (nonlinear_arith)
        requires
            len * (after - rest) < off * len,
            len >= 1,
    ;
}

/// A link is as long from one end as from the other.
pub proof fn lemma_length_symmetric(p: Vector, q: Vector)
    ensures
        p.minus(q).length() == q.minus(p).length(),
{
    let d: Vector = p.minus(q);
    let e: Vector = q.minus(p);
    assert(d.norm_squared() == e.norm_squared()) by (nonlinear_arith)
        requires
            e.x == -d.x,
            e.y == -d.y,
            e.z == -d.z,
            d.norm_squared() == d.x * d.x + d.y * d.y + d.z * d.z,
            e.norm_squared() == e.x * e.x + e.y * e.y + e.z * e.z,
    ;
}

/// Every coordinate of `v` is at most `bound` in size.
pub open spec fn within(v: Vector, bound: int) -> bool {
    &&& -bound <= v.x <= bound
    &&& -bound <= v.y <= bound
    &&& -bound <= v.z <= bound
}

/// A pulled end lies no further out than the ends before it, by more than
/// the rest length and one cell.
pub proof fn lemma_pulled_within(p: int, q: int, rest: int, len: int, bound: int)
    requires
        len >= 1,
        rest >= 1,
        -len <= p - q <= len,
        -bound <= p <= bound,
        -bound <= q <= bound,
    ensures
        -(bound + rest + 1) <= pulled(p, q, rest, len) <= bound + rest + 1,
{
    let exact: int = (p + q) * len + (p - q) * rest;
    let to: int = pulled(p, q, rest, len);
    lemma_round_div_bounds(exact, 2 * len);
    assert(-(2 * (bound * len)) <= (p + q) * len <= 2 * (bound * len)) by (nonlinear_arith)
        requires
            -bound <= p <= bound,
            -bound <= q <= bound,
            len >= 1,
    ;
    assert(-(len * rest) <= (p - q) * rest <= len * rest) by (nonlinear_arith)
        requires
            -len <= p - q <= len,
            rest >= 1,
    ;
    assert((2 * len) * to == 2 * (len * to)) by (nonlinear_arith);
    assert(-(bound + rest + 1) <= to <= bound + rest + 1) by (nonlinear_arith)
        requires
            -(2 * len) <= 2 * exact - 4 * (len * to) < 2 * len,
            -(2 * (bound * len)) - len * rest <= exact <= 2 * (bound * len) + len * rest,
            len >= 1,
            rest >= 1,
    ;
}

/// One relaxation of a link with two unlocked ends that lie well inside
/// the world puts the ends where the pull takes them, and no further out
/// than before by more than the rest length and one cell.
pub proof fn lemma_lone_relaxation(points: Seq<PointModel>, stick: StickModel, bound: int)
    requires
        stick.valid_for(points.len()),
        !points[stick.point_a].locked,
        !points[stick.point_b].locked,
        points[stick.point_a].position != points[stick.point_b].position,
        within(points[stick.point_a].position, bound),
        within(points[stick.point_b].position, bound),
        bound + stick.rest_length + 1 <= WORLD_LIMIT,
    ensures
        ({
            let relaxed = relax_stick(points, stick);
            let ends = pulled_ends(
                points[stick.point_a].position,
                points[stick.point_b].position,
                stick.rest_length,
            );
            &&& relaxed.len() == points.len()
            &&& !relaxed[stick.point_a].locked
            &&& !relaxed[stick.point_b].locked
            &&& relaxed[stick.point_a].position == ends.0
            &&& relaxed[stick.point_b].position == ends.1
            &&& within(ends.0, bound + stick.rest_length + 1)
            &&& within(ends.1, bound + stick.rest_length + 1)
        }),
{
    let p: Vector = points[stick.point_a].position;
    let q: Vector = points[stick.point_b].position;
    let rest: int = stick.rest_length;
    let len: int = p.minus(q).length();
    crate::solver::lemma_length_positive(p, q);
    lemma_length_symmetric(p, q);
    lemma_coordinate_within_length(p.minus(q));
    lemma_coordinate_within_length(q.minus(p));
    lemma_pulled_within(p.x, q.x, rest, len, bound);
    lemma_pulled_within(p.y, q.y, rest, len, bound);
    lemma_pulled_within(p.z, q.z, rest, len, bound);
    lemma_pulled_within(q.x, p.x, rest, len, bound);
    lemma_pulled_within(q.y, p.y, rest, len, bound);
    lemma_pulled_within(q.z, p.z, rest, len, bound);
    let ends = pulled_ends(p, q, rest);
    assert(pulled_position(p, q, rest, len) == ends.0);
    assert(pulled_position(q, p, rest, len) == ends.1);
}

/// What holds of a lone link after any number of solver passes, each of
/// them clear of the wall of the world.
proof fn lemma_lone_link_passes(
    points: Seq<PointModel>,
    stick: StickModel,
    passes: nat,
    bound: int,
)
    requires
        passes >= 1,
        stick.valid_for(points.len()),
        stick.rest_length >= 12,
        !points[stick.point_a].locked,
        !points[stick.point_b].locked,
        points[stick.point_a].position != points[stick.point_b].position,
        within(points[stick.point_a].position, bound),
        within(points[stick.point_b].position, bound),
        bound + passes * (stick.rest_length + 1) <= WORLD_LIMIT,
        ({
            let len = points[stick.point_a].position.minus(
                points[stick.point_b].position,
            ).length();
            off_by(len, stick.rest_length) * len > stick.rest_length + 6 * len
        }),
    ensures
        ({
            let before = points[stick.point_a].position.minus(
                points[stick.point_b].position,
            ).length();
            let relaxed = relax(points, seq![stick], passes);
            let after = relaxed[stick.point_a].position.minus(
                relaxed[stick.point_b].position,
            ).length();
            &&& relaxed.len() == points.len()
            &&& !relaxed[stick.point_a].locked
            &&& !relaxed[stick.point_b].locked
            &&& within(
                relaxed[stick.point_a].position,
                bound + passes * (stick.rest_length + 1),
            )
            &&& within(
                relaxed[stick.point_b].position,
                bound + passes * (stick.rest_length + 1),
            )
            &&& after >= stick.rest_length - 6
            &&& off_by(after, stick.rest_length) < off_by(before, stick.rest_length)
        }),
    decreases passes,
{
    let only: Seq<StickModel> = seq![stick];
    let rest: int = stick.rest_length;
    let earlier: nat = (passes - 1) as nat;
    let start: Seq<PointModel> = relax(points, only, earlier);
    assert(only.drop_last() =~= Seq::<StickModel>::empty());
    assert(only.last() == stick);
    assert(relax_pass(start, only.drop_last()) == start);
    assert(relax(points, only, passes) == relax_stick(start, stick));
    assert(passes * (rest + 1) == earlier * (rest + 1) + (rest + 1)) by (nonlinear_arith)
        requires
            earlier == passes - 1,
    ;
    assert(earlier * (rest + 1) >= 0) by (nonlinear_arith)
        requires
            earlier >= 0,
            rest >= 12,
    ;
    let reach: int = bound + earlier * (rest + 1);
    if passes == 1 {
        assert(start == points);
        lemma_lone_relaxation(points, stick, bound);
        let p: Vector = points[stick.point_a].position;
        let q: Vector = points[stick.point_b].position;
        lemma_relaxed_length(p, q, rest);
        law_relaxation_brings_link_closer(points, stick);
    } else {
        lemma_lone_link_passes(points, stick, earlier, bound);
        let p: Vector = start[stick.point_a].position;
        let q: Vector = start[stick.point_b].position;
        let len: int = p.minus(q).length();
        crate::solver::lemma_length_positive(p, q);
        lemma_lone_relaxation(start, stick, reach);
        lemma_relaxed_length(p, q, rest);
        let ends = pulled_ends(p, q, rest);
        let after: int = ends.0.minus(ends.1).length();
        let first: int = points[stick.point_a].position.minus(
            points[stick.point_b].position,
        ).length();
        lemma_relaxed_length(
            points[stick.point_a].position,
            points[stick.point_b].position,
            rest,
        );
        assert(off_by(first, rest) > 6) by (nonlinear_arith)
            requires
                off_by(first, rest) * first > rest + 6 * first,
                first >= 1,
                rest >= 12,
        ;
        assert(after <= rest + 6) by (nonlinear_arith)
            requires
                len * after <= len * rest + rest + 4 * len,
                len >= rest - 6,
                rest >= 12,
        ;
    }
}

/// Constraint convergence: the solver, run for any number of passes on a
/// rope whose only link has two unlocked ends, leaves that link strictly
/// closer to its rest length than it was, if the link started off by more
/// than `6 + rest / len` cells (`len` being its length at the start), its
/// rest length is at least twelve cells, and its ends start far enough
/// from the wall of the world not to reach it: further than the number of
/// passes times the rest length and one cell.
pub proof fn law_solver_brings_lone_link_closer(
    points: Seq<PointModel>,
    stick: StickModel,
    passes: nat,
    bound: int,
)
    requires
        passes >= 1,
        stick.valid_for(points.len()),
        stick.rest_length >= 12,
        !points[stick.point_a].locked,
        !points[stick.point_b].locked,
        points[stick.point_a].position != points[stick.point_b].position,
        within(points[stick.point_a].position, bound),
        within(points[stick.point_b].position, bound),
        bound + passes * (stick.rest_length + 1) <= WORLD_LIMIT,
        ({
            let len = points[stick.point_a].position.minus(
                points[stick.point_b].position,
            ).length();
            off_by(len, stick.rest_length) * len > stick.rest_length + 6 * len
        }),
    ensures
        ({
            let before = points[stick.point_a].position.minus(
                points[stick.point_b].position,
            ).length();
            let relaxed = relax(points, seq![stick], passes);
            let after = relaxed[stick.point_a].position.minus(
                relaxed[stick.point_b].position,
            ).length();
            off_by(after, stick.rest_length) < off_by(before, stick.rest_length)
        }),
{
    lemma_lone_link_passes(points, stick, passes, bound);
}

} // verus!
