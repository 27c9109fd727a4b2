//! Directions around a point: how the counterclockwise order of directions
//! relates to the sectors between consecutive neighbours.
use vstd::prelude::*;
use crate::geometry::{side_of, spec_in_circle_segment, Point};
use crate::subdivision::{angle_before, half_plane, sorted_around};

verus! {

/// The cross product of the vectors `(ax, ay)` and `(bx, by)`.
pub open spec fn cross(ax: int, ay: int, bx: int, by: int) -> int {
    ax * by - ay * bx
}

/// The direction of `(ax, ay)` comes strictly before that of `(bx, by)`
/// counterclockwise from the positive x axis.
pub open spec fn dir_before(ax: int, ay: int, bx: int, by: int) -> bool {
    half_plane(ax, ay) < half_plane(bx, by) || (half_plane(ax, ay) == half_plane(bx, by) && cross(
        ax,
        ay,
        bx,
        by,
    ) > 0)
}

/// For three vectors, `cross(q, w) * u.y == cross(u, w) * q.y - cross(u, q) * w.y`.
proof fn lemma_cross_identity_y(ux: int, uy: int, qx: int, qy: int, wx: int, wy: int)
    ensures
        cross(qx, qy, wx, wy) * uy == cross(ux, uy, wx, wy) * qy - cross(ux, uy, qx, qy) * wy,
        cross(ux, uy, qx, qy) * wy == cross(ux, uy, wx, wy) * qy - cross(qx, qy, wx, wy) * uy,
{
    assert((qx * wy - qy * wx) * uy == (ux * wy - uy * wx) * qy - (ux * qy - uy * qx) * wy)
        by (nonlinear_arith);
}

/// A direction `q` between `u` and `w` (counterclockwise, from the positive
/// x axis) lies in the sector from `u` to `w`: on the left of `u` and the
/// right of `w` if that sector is at most a half turn, on one of these
/// sides otherwise.
proof fn lemma_between_in_sector(ux: int, uy: int, qx: int, qy: int, wx: int, wy: int)
    requires
        !(ux == 0 && uy == 0),
        !(qx == 0 && qy == 0),
        !(wx == 0 && wy == 0),
        !dir_before(qx, qy, ux, uy),
        !dir_before(wx, wy, qx, qy),
    ensures
        cross(ux, uy, wx, wy) >= 0 ==> cross(ux, uy, qx, qy) >= 0 && cross(qx, qy, wx, wy) >= 0,
        cross(ux, uy, qx, qy) >= 0 || cross(qx, qy, wx, wy) >= 0,
{
    let hu = half_plane(ux, uy);
    let hq = half_plane(qx, qy);
    let hw = half_plane(wx, wy);
    if hu == hq && hq == hw {
    } else if hu == hq {
        // u and q in the upper half, w in the lower one
        if cross(ux, uy, wx, wy) >= 0 {
            lemma_cross_identity_y(ux, uy, qx, qy, wx, wy);
            if uy > 0 {
                assert(cross(ux, uy, wx, wy) * qy >= 0) by (nonlinear_arith)
                    requires
                        cross(ux, uy, wx, wy) >= 0,
                        qy >= 0,
                ;
                assert(cross(ux, uy, qx, qy) * wy <= 0) by (nonlinear_arith)
                    requires
                        cross(ux, uy, qx, qy) >= 0,
                        wy <= 0,
                ;
                assert(cross(qx, qy, wx, wy) >= 0) by (nonlinear_arith)
                    requires
                        cross(qx, qy, wx, wy) * uy >= 0,
                        uy > 0,
                ;
            } else {
                assert(ux > 0 && uy == 0);
                assert(cross(ux, uy, wx, wy) == ux * wy);
                assert(wy >= 0) by (nonlinear_arith)
                    requires
                        ux * wy >= 0,
                        ux > 0,
                ;
                assert(wy == 0 && wx < 0);
                assert(cross(qx, qy, wx, wy) == -(qy * wx));
                assert(qy * wx <= 0) by (nonlinear_arith)
                    requires
                        qy >= 0,
                        wx < 0,
                ;
            }
        }
    } else {
        // u in the upper half, q and w in the lower one
        if cross(ux, uy, wx, wy) >= 0 {
            lemma_cross_identity_y(ux, uy, qx, qy, wx, wy);
            if wy < 0 {
                assert(cross(ux, uy, wx, wy) * qy <= 0) by (nonlinear_arith)
                    requires
                        cross(ux, uy, wx, wy) >= 0,
                        qy <= 0,
                ;
                assert(cross(qx, qy, wx, wy) * uy >= 0) by (nonlinear_arith)
                    requires
                        cross(qx, qy, wx, wy) >= 0,
                        uy >= 0,
                ;
                assert(cross(ux, uy, qx, qy) >= 0) by (nonlinear_arith)
                    requires
                        cross(ux, uy, qx, qy) * wy <= 0,
                        wy < 0,
                ;
            } else {
                assert(wy == 0 && wx < 0);
                assert(cross(qx, qy, wx, wy) == -(qy * wx));
                assert(qy >= 0) by (nonlinear_arith)
                    requires
                        -(qy * wx) >= 0,
                        wx < 0,
                ;
                assert(qy == 0 && qx < 0);
                assert(cross(ux, uy, qx, qy) == -(uy * qx));
                assert(uy * qx <= 0) by (nonlinear_arith)
                    requires
                        uy >= 0,
                        qx < 0,
                ;
            }
        }
    }
}

/// Past the last of the directions `w <= u`, with the turn from `u` on to
/// `w` under a half turn, a direction `q` lies left of `u` and right of `w`.
proof fn lemma_after_last(ux: int, uy: int, qx: int, qy: int, wx: int, wy: int)
    requires
        !(ux == 0 && uy == 0),
        !(qx == 0 && qy == 0),
        !(wx == 0 && wy == 0),
        !dir_before(ux, uy, wx, wy),
        !dir_before(qx, qy, ux, uy),
        cross(ux, uy, wx, wy) > 0,
    ensures
        cross(ux, uy, qx, qy) >= 0,
        cross(qx, qy, wx, wy) >= 0,
{
    assert(half_plane(wx, wy) == 0 && half_plane(ux, uy) == 1);
    lemma_cross_identity_y(ux, uy, qx, qy, wx, wy);
    if uy == 0 {
        assert(ux < 0);
        assert(cross(ux, uy, wx, wy) == ux * wy);
        assert(ux * wy <= 0) by (nonlinear_arith)
            requires
                ux < 0,
                wy >= 0,
        ;
    }
    assert(uy < 0);
    assert(cross(ux, uy, wx, wy) * qy <= 0) by (nonlinear_arith)
        requires
            cross(ux, uy, wx, wy) > 0,
            qy <= 0,
    ;
    assert(cross(ux, uy, qx, qy) * wy >= 0) by (nonlinear_arith)
        requires
            cross(ux, uy, qx, qy) >= 0,
            wy >= 0,
    ;
    assert(cross(qx, qy, wx, wy) >= 0) by (nonlinear_arith)
        requires
            cross(qx, qy, wx, wy) * uy <= 0,
            uy < 0,
    ;
}

/// Before the first of the directions `w <= u`, with the turn from `u` on to
/// `w` under a half turn, a direction `q` lies left of `u` and right of `w`.
proof fn lemma_before_first(ux: int, uy: int, qx: int, qy: int, wx: int, wy: int)
    requires
        !(ux == 0 && uy == 0),
        !(qx == 0 && qy == 0),
        !(wx == 0 && wy == 0),
        !dir_before(ux, uy, wx, wy),
        !dir_before(wx, wy, qx, qy),
        cross(ux, uy, wx, wy) > 0,
    ensures
        cross(ux, uy, qx, qy) >= 0,
        cross(qx, qy, wx, wy) >= 0,
{
    assert(half_plane(wx, wy) == 0 && half_plane(ux, uy) == 1);
    assert(half_plane(qx, qy) == 0);
    lemma_cross_identity_y(ux, uy, qx, qy, wx, wy);
    if wy > 0 {
        assert(cross(ux, uy, wx, wy) * qy >= 0) by (nonlinear_arith)
            requires
                cross(ux, uy, wx, wy) > 0,
                qy >= 0,
        ;
        assert(cross(qx, qy, wx, wy) * uy <= 0) by (nonlinear_arith)
            requires
                cross(qx, qy, wx, wy) >= 0,
                uy <= 0,
        ;
        assert(cross(ux, uy, qx, qy) >= 0) by (nonlinear_arith)
            requires
                cross(ux, uy, qx, qy) * wy >= 0,
                wy > 0,
        ;
    } else {
        assert(wy == 0 && wx > 0);
        assert(cross(qx, qy, wx, wy) == -(qy * wx));
        assert(qy <= 0) by (nonlinear_arith)
            requires
                -(qy * wx) >= 0,
                wx > 0,
        ;
        assert(qy == 0 && qx > 0);
        assert(cross(ux, uy, qx, qy) == -(uy * qx));
        assert(uy * qx <= 0) by (nonlinear_arith)
            requires
                uy <= 0,
                qx > 0,
        ;
    }
}

/// Seen from `o`, a point `q` whose direction lies between those of `u` and
/// `w` lies in the sector from `u` to `w`, whatever the tolerance.
pub proof fn lemma_between_in_circle_segment(o: Point, u: Point, q: Point, w: Point, tol: int)
    requires
        u != o,
        q != o,
        w != o,
        tol >= 0,
        !angle_before(o, q, u),
        !angle_before(o, w, q),
    ensures
        spec_in_circle_segment(o, u, w, q, tol),
{
    lemma_between_in_sector(u.x - o.x, u.y - o.y, q.x - o.x, q.y - o.y, w.x - o.x, w.y - o.y);
}

/// The sectors between consecutive neighbours, tested from the `from`-th
/// on, hold every direction from that of the neighbour `from - 1` up to,
/// and not including, that of the last neighbour.
pub proof fn lemma_sectors_cover(pos: Seq<Point>, c: usize, nbs: Seq<usize>, p: Point, tol: int, from: int)
    requires
        sorted_around(pos, c, nbs),
        1 <= from < nbs.len(),
        forall|i: int| 0 <= i < nbs.len() ==> pos[#[trigger] nbs[i] as int] != pos[c as int],
        p != pos[c as int],
        tol >= 0,
        !angle_before(pos[c as int], p, pos[nbs[from - 1] as int]),
        angle_before(pos[c as int], p, pos[nbs[nbs.len() - 1] as int]),
    ensures
        crate::walk::sector_from(pos, nbs, pos[c as int], p, tol, from) < nbs.len(),
    decreases nbs.len() - from,
{
    let o = pos[c as int];
    let u = pos[nbs[from - 1] as int];
    let w = pos[nbs[from] as int];
    if !spec_in_circle_segment(o, u, w, p, tol) {
        if angle_before(o, p, w) {
            assert(!angle_before(o, w, p));
            lemma_between_in_circle_segment(o, u, p, w, tol);
        }
        if from + 1 == nbs.len() {
            assert(w == pos[nbs[nbs.len() - 1] as int]);
        } else {
            lemma_sectors_cover(pos, c, nbs, p, tol, from + 1);
        }
    }
}

/// Where no sector between consecutive neighbours holds `p`, and the turn
/// from the last neighbour on to the first is under a half turn, `p` lies
/// left of the last neighbour and right of the first.
pub proof fn lemma_outside_sectors(pos: Seq<Point>, c: usize, nbs: Seq<usize>, p: Point, tol: int)
    requires
        sorted_around(pos, c, nbs),
        nbs.len() >= 2,
        forall|i: int| 0 <= i < nbs.len() ==> pos[#[trigger] nbs[i] as int] != pos[c as int],
        p != pos[c as int],
        tol >= 0,
        crate::walk::sector_from(pos, nbs, pos[c as int], p, tol, 1) == nbs.len(),
        side_of(pos[c as int], pos[nbs[nbs.len() - 1] as int], pos[nbs[0] as int]) > 0,
    ensures
        side_of(pos[c as int], pos[nbs[nbs.len() - 1] as int], p) >= 0,
        side_of(pos[c as int], pos[nbs[0] as int], p) <= 0,
{
    let o = pos[c as int];
    let u = pos[nbs[nbs.len() - 1] as int];
    let w = pos[nbs[0] as int];
    assert(nbs[0] == nbs[0]);
    assert(nbs[nbs.len() - 1] == nbs[nbs.len() - 1]);
    assert(u != o && w != o);
    assert(!angle_before(o, u, w));
    if !angle_before(o, p, w) && angle_before(o, p, u) {
        lemma_sectors_cover(pos, c, nbs, p, tol, 1);
    }
    if angle_before(o, p, w) {
        assert(!angle_before(o, w, p));
        lemma_before_first(u.x - o.x, u.y - o.y, p.x - o.x, p.y - o.y, w.x - o.x, w.y - o.y);
    } else {
        lemma_after_last(u.x - o.x, u.y - o.y, p.x - o.x, p.y - o.y, w.x - o.x, w.y - o.y);
    }
}

} // verus!
