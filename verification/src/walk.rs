//! Locating a point by walking from vertex to vertex through the
//! triangulation, and why the walk may stop after as many steps as there
//! are vertices.
use vstd::prelude::*;
use crate::delaunay::{distinct_positions, triangulation_wf};
use crate::geometry::{dist2, side_of, spec_in_circle_segment, within_segment_distance, Point};
use crate::subdivision::{adjacency_wf, adjacent};

verus! {

/// Where a point lies relative to the triangulation.
#[derive(Clone, Copy, Debug, PartialEq, Eq, Structural)]
pub enum PositionInTriangulation {
    /// Strictly inside the triangle with these corners.
    InTriangle(usize, usize, usize),
    /// Outside the convex hull, seen across the edge between these vertices.
    OutsideConvexHull(usize, usize),
    /// On this vertex.
    OnPoint(usize),
    /// On the edge between these vertices.
    OnEdge(usize, usize),
}

/// One step of the walk that locates a point.
pub enum WalkStep {
    /// The walk ends here.
    Found(PositionInTriangulation),
    /// The walk continues at this vertex.
    Next(usize),
    /// The current vertex has no neighbours, so the walk cannot go on.
    Stuck,
}

/// The first `i >= from` (counting from 1) such that `p` lies in the sector
/// between the neighbours `nbs[i - 1]` and `nbs[i]` of a vertex at `origin`,
/// or the number of neighbours if there is none.
pub open spec fn sector_from(pos: Seq<Point>, nbs: Seq<usize>, origin: Point, p: Point, tol: int, from: int) -> int
    decreases nbs.len() - from,
{
    if from >= nbs.len() {
        nbs.len() as int
    } else if spec_in_circle_segment(
        origin,
        pos[nbs[from - 1] as int],
        pos[nbs[from] as int],
        p,
        tol,
    ) {
        from
    } else {
        sector_from(pos, nbs, origin, p, tol, from + 1)
    }
}

/// One step of the walk towards `p`, standing at vertex `cur`.
///
/// The sector around `cur` that holds `p` is bounded by the neighbours `cw`
/// and `ccw`. If `p` is within the tolerance of the edge to `cw` (or to
/// `ccw`) it lies on that edge or one of its ends; if the sector is reflex,
/// `p` lies outside the convex hull; if `p` is left of `cw -> ccw` it lies in
/// the triangle `(cw, ccw, cur)`; otherwise the walk moves to whichever of
/// `cw` and `ccw` is nearer to `p`.
pub open spec fn walk_step(pos: Seq<Point>, adj: Seq<Seq<usize>>, tol: int, cur: usize, p: Point) -> WalkStep {
    let nbs = adj[cur as int];
    let len = nbs.len() as int;
    if len == 0 {
        WalkStep::Stuck
    } else {
        let origin = pos[cur as int];
        let sector = sector_from(pos, nbs, origin, p, tol, 1);
        let cw = nbs[sector - 1];
        let ccw = if sector == len {
            nbs[0]
        } else {
            nbs[sector]
        };
        let cw_pos = pos[cw as int];
        let ccw_pos = pos[ccw as int];
        if within_segment_distance(origin, cw_pos, p, tol) {
            if p == cw_pos {
                WalkStep::Found(PositionInTriangulation::OnPoint(cw))
            } else if p == origin {
                WalkStep::Found(PositionInTriangulation::OnPoint(cur))
            } else {
                WalkStep::Found(PositionInTriangulation::OnEdge(cw, cur))
            }
        } else if within_segment_distance(origin, ccw_pos, p, tol) {
            if p == ccw_pos {
                WalkStep::Found(PositionInTriangulation::OnPoint(ccw))
            } else {
                WalkStep::Found(PositionInTriangulation::OnEdge(cur, ccw))
            }
        } else if side_of(cw_pos, ccw_pos, origin) < 0 {
            if side_of(origin, cw_pos, p) > tol {
                WalkStep::Found(PositionInTriangulation::OutsideConvexHull(cur, cw))
            } else {
                WalkStep::Found(PositionInTriangulation::OutsideConvexHull(cur, ccw))
            }
        } else if side_of(cw_pos, ccw_pos, p) > 0 {
            WalkStep::Found(PositionInTriangulation::InTriangle(cw, ccw, cur))
        } else if dist2(cw_pos, p) < dist2(ccw_pos, p) {
            WalkStep::Next(cw)
        } else {
            WalkStep::Next(ccw)
        }
    }
}

/// The outcome of at most `fuel` walk steps from `cur`: `None` if the walk
/// gets stuck or has not ended after `fuel` steps.
pub open spec fn walk(pos: Seq<Point>, adj: Seq<Seq<usize>>, tol: int, cur: usize, p: Point, fuel: nat) -> Option<PositionInTriangulation>
    decreases fuel,
{
    if fuel == 0 {
        None
    } else {
        match walk_step(pos, adj, tol, cur, p) {
            WalkStep::Found(r) => Some(r),
            WalkStep::Next(next) => walk(pos, adj, tol, next, p, (fuel - 1) as nat),
            WalkStep::Stuck => None,
        }
    }
}

/// The sector search returns a position between the start and the number of
/// neighbours.
pub proof fn lemma_sector_bounds(pos: Seq<Point>, nbs: Seq<usize>, origin: Point, p: Point, tol: int, from: int)
    requires
        1 <= from,
    ensures
        from <= sector_from(pos, nbs, origin, p, tol, from) || sector_from(pos, nbs, origin, p, tol, from) == nbs.len(),
        sector_from(pos, nbs, origin, p, tol, from) <= if from > nbs.len() { from } else { nbs.len() as int },
        sector_from(pos, nbs, origin, p, tol, from) >= 1 || nbs.len() == 0,
    decreases nbs.len() - from,
{
    if from < nbs.len() {
        lemma_sector_bounds(pos, nbs, origin, p, tol, from + 1);
    }
}

/// What a reported position says about `p`: the vertices it names exist and
/// the ones it pairs are neighbours; `p` is the position of the reported
/// vertex; `p` lies within the tolerance of the reported edge, away from its
/// ends; `p` lies strictly left of the first edge of the reported triangle,
/// whose third corner is not to its right.
pub open spec fn position_valid(pos: Seq<Point>, adj: Seq<Seq<usize>>, tol: int, p: Point, r: PositionInTriangulation) -> bool {
    match r {
        PositionInTriangulation::InTriangle(a, b, c) => adjacent(adj, c, a) && adjacent(adj, c, b)
            && adjacent(adj, a, c) && adjacent(adj, b, c) && side_of(pos[a as int], pos[b as int], p)
            > 0 && side_of(pos[a as int], pos[b as int], pos[c as int]) >= 0,
        PositionInTriangulation::OutsideConvexHull(a, b) => adjacent(adj, a, b) && adjacent(adj, b, a),
        PositionInTriangulation::OnPoint(v) => (v as int) < adj.len() && pos[v as int] == p,
        PositionInTriangulation::OnEdge(a, b) => adjacent(adj, a, b) && adjacent(adj, b, a) && p
            != pos[a as int] && p != pos[b as int] && (within_segment_distance(
            pos[a as int],
            pos[b as int],
            p,
            tol,
        ) || within_segment_distance(pos[b as int], pos[a as int], p, tol)),
    }
}

/// The vertices a walk step moves to, or reports, are valid.
pub proof fn lemma_walk_step_valid(pos: Seq<Point>, adj: Seq<Seq<usize>>, tol: int, cur: usize, p: Point)
    requires
        adjacency_wf(pos, adj),
        (cur as int) < adj.len(),
    ensures
        match walk_step(pos, adj, tol, cur, p) {
            WalkStep::Found(r) => position_valid(pos, adj, tol, p, r),
            WalkStep::Next(next) => adjacent(adj, cur, next) && (next as int) < adj.len(),
            WalkStep::Stuck => true,
        },
{
    let nbs = adj[cur as int];
    let len = nbs.len() as int;
    if len > 0 {
        let origin = pos[cur as int];
        let sector = sector_from(pos, nbs, origin, p, tol, 1);
        lemma_sector_bounds(pos, nbs, origin, p, tol, 1);
        let cw = nbs[sector - 1];
        let ccw = if sector == len {
            nbs[0]
        } else {
            nbs[sector]
        };
        assert(nbs.contains(cw));
        assert(nbs.contains(ccw));
        assert(adjacent(adj, cur, cw));
        assert(adjacent(adj, cur, ccw));
        assert((cw as int) < adj.len());
        assert((ccw as int) < adj.len());
        if within_segment_distance(origin, pos[ccw as int], p, tol) && p == origin {
            crate::geometry::lemma_within_at_start(origin, pos[cw as int], tol);
        }
    }
}

/// Every vertex that a walk reports is valid.
pub proof fn lemma_walk_valid(pos: Seq<Point>, adj: Seq<Seq<usize>>, tol: int, cur: usize, p: Point, fuel: nat)
    requires
        adjacency_wf(pos, adj),
        (cur as int) < adj.len(),
    ensures
        walk(pos, adj, tol, cur, p, fuel) matches Some(r) ==> position_valid(pos, adj, tol, p, r),
    decreases fuel,
{
    if fuel > 0 {
        lemma_walk_step_valid(pos, adj, tol, cur, p);
        if let WalkStep::Next(next) = walk_step(pos, adj, tol, cur, p) {
            lemma_walk_valid(pos, adj, tol, next, p, (fuel - 1) as nat);
        }
    }
}

/// A walk that starts on a vertex at `p` stops there at once.
pub proof fn lemma_walk_finds_vertex(pos: Seq<Point>, adj: Seq<Seq<usize>>, tol: int, v: usize, p: Point)
    requires
        triangulation_wf(pos, adj),
        distinct_positions(pos),
        tol >= 0,
        pos.len() >= 3,
        (v as int) < pos.len(),
        pos[v as int] == p,
    ensures
        walk(pos, adj, tol, v, p, pos.len()) == Some(PositionInTriangulation::OnPoint(v)),
{
    let nbs = adj[v as int];
    assert(nbs.len() > 0);
    let sector = sector_from(pos, nbs, p, p, tol, 1);
    lemma_sector_bounds(pos, nbs, p, p, tol, 1);
    let cw = nbs[sector - 1];
    assert((cw as int) < adj.len() && cw != v);
    assert(pos[cw as int] != pos[v as int]);
    crate::geometry::lemma_square_nonneg(tol);
    assert(dist2(p, p) == 0);
    assert(within_segment_distance(p, pos[cw as int], p, tol));
    assert(walk_step(pos, adj, tol, v, p) == WalkStep::Found(PositionInTriangulation::OnPoint(v)));
}

/// `p` lies in the triangle `(a, b, c)` up to the tolerance: strictly left of
/// `a -> b`, and at most `tol` right of `c -> a` or left of `c -> b`.
pub open spec fn in_triangle_within(pos: Seq<Point>, tol: int, p: Point, a: usize, b: usize, c: usize) -> bool {
    &&& side_of(pos[a as int], pos[b as int], p) > 0
    &&& side_of(pos[c as int], pos[a as int], p) >= -tol
    &&& side_of(pos[c as int], pos[b as int], p) <= tol
}

/// If `r` is a proper triangle, it holds `p` up to the tolerance.
pub open spec fn located_in_triangle(pos: Seq<Point>, tol: int, p: Point, r: PositionInTriangulation) -> bool {
    match r {
        PositionInTriangulation::InTriangle(a, b, c) => side_of(pos[a as int], pos[b as int], pos[c as int]) > 0
            ==> in_triangle_within(pos, tol, p, a, b, c),
        _ => true,
    }
}

/// The orientation of three points does not change when they are rotated.
proof fn lemma_side_rotate(a: Point, b: Point, c: Point)
    ensures
        side_of(a, b, c) == side_of(b, c, a),
{
    assert((b.x - a.x) * (c.y - a.y) - (b.y - a.y) * (c.x - a.x) == (c.x - b.x) * (a.y - b.y) - (c.y
        - b.y) * (a.x - b.x)) by (nonlinear_arith);
}

/// With a nonnegative tolerance and distinct positions, a proper triangle
/// that a walk step reports holds `p`, up to the tolerance.
pub proof fn lemma_walk_step_in_triangle(pos: Seq<Point>, adj: Seq<Seq<usize>>, tol: int, cur: usize, p: Point)
    requires
        triangulation_wf(pos, adj),
        distinct_positions(pos),
        tol >= 0,
        (cur as int) < adj.len(),
    ensures
        walk_step(pos, adj, tol, cur, p) matches WalkStep::Found(r) ==> located_in_triangle(pos, tol, p, r),
{
    let nbs = adj[cur as int];
    let len = nbs.len() as int;
    if len > 0 {
        let origin = pos[cur as int];
        let sector = sector_from(pos, nbs, origin, p, tol, 1);
        lemma_sector_bounds(pos, nbs, origin, p, tol, 1);
        let cw = nbs[sector - 1];
        let ccw = if sector == len {
            nbs[0]
        } else {
            nbs[sector]
        };
        if let WalkStep::Found(PositionInTriangulation::InTriangle(a, b, c)) = walk_step(pos, adj, tol, cur, p) {
            if side_of(pos[a as int], pos[b as int], pos[c as int]) > 0 {
                assert(a == cw && b == ccw && c == cur);
                crate::geometry::lemma_within_at_start(origin, pos[cw as int], tol);
                assert(p != origin);
                lemma_side_rotate(origin, pos[cw as int], pos[ccw as int]);
                if sector < len {
                    lemma_sector_found(pos, nbs, origin, p, tol, 1);
                } else {
                    if len == 1 {
                        assert(cw == ccw);
                        let q = pos[cw as int];
                        assert(side_of(q, q, origin) == 0) by (nonlinear_arith);
                    }
                    assert forall|i: int| 0 <= i < nbs.len() implies pos[#[trigger] nbs[i] as int] != pos[cur as int] by {
                        assert(nbs[i] != cur);
                    }
                    crate::angles::lemma_outside_sectors(pos, cur, nbs, p, tol);
                }
            }
        }
    }
}

/// A sector that the search settles on, short of the last one, holds `p`.
proof fn lemma_sector_found(pos: Seq<Point>, nbs: Seq<usize>, origin: Point, p: Point, tol: int, from: int)
    requires
        1 <= from,
        sector_from(pos, nbs, origin, p, tol, from) < nbs.len(),
    ensures
        spec_in_circle_segment(
            origin,
            pos[nbs[sector_from(pos, nbs, origin, p, tol, from) - 1] as int],
            pos[nbs[sector_from(pos, nbs, origin, p, tol, from)] as int],
            p,
            tol,
        ),
    decreases nbs.len() - from,
{
    if from < nbs.len() && !spec_in_circle_segment(origin, pos[nbs[from - 1] as int], pos[nbs[from] as int], p, tol) {
        lemma_sector_found(pos, nbs, origin, p, tol, from + 1);
    }
}

/// With a nonnegative tolerance and distinct positions, a proper triangle
/// that the walk reports holds `p`, up to the tolerance.
pub proof fn lemma_walk_in_triangle(pos: Seq<Point>, adj: Seq<Seq<usize>>, tol: int, cur: usize, p: Point, fuel: nat)
    requires
        triangulation_wf(pos, adj),
        distinct_positions(pos),
        tol >= 0,
        (cur as int) < adj.len(),
    ensures
        walk(pos, adj, tol, cur, p, fuel) matches Some(r) ==> located_in_triangle(pos, tol, p, r),
    decreases fuel,
{
    if fuel > 0 {
        lemma_walk_step_in_triangle(pos, adj, tol, cur, p);
        lemma_walk_step_valid(pos, adj, tol, cur, p);
        if let WalkStep::Next(next) = walk_step(pos, adj, tol, cur, p) {
            lemma_walk_in_triangle(pos, adj, tol, next, p, (fuel - 1) as nat);
        }
    }
}

/// What a located position says about `p`, for a nonnegative tolerance:
/// a reported vertex stands at `p`; otherwise `p` is at none of the reported
/// vertices, and it is farther than the tolerance from the reported hull
/// edge, and from the two edges of a reported triangle that meet at its
/// last corner.
pub open spec fn location_clear(pos: Seq<Point>, tol: int, p: Point, r: PositionInTriangulation) -> bool {
    match r {
        PositionInTriangulation::OnPoint(v) => pos[v as int] == p,
        PositionInTriangulation::OnEdge(a, b) => pos[a as int] != p && pos[b as int] != p,
        PositionInTriangulation::OutsideConvexHull(a, b) => {
            &&& !within_segment_distance(pos[a as int], pos[b as int], p, tol)
            &&& pos[a as int] != p
            &&& pos[b as int] != p
        },
        PositionInTriangulation::InTriangle(a, b, c) => {
            &&& !within_segment_distance(pos[c as int], pos[a as int], p, tol)
            &&& !within_segment_distance(pos[c as int], pos[b as int], p, tol)
            &&& pos[a as int] != p
            &&& pos[b as int] != p
            &&& pos[c as int] != p
        },
    }
}

/// A position reported by one walk step is clear in the sense of
/// `location_clear`.
proof fn lemma_walk_step_clear(pos: Seq<Point>, adj: Seq<Seq<usize>>, tol: int, cur: usize, p: Point)
    requires
        tol >= 0,
    ensures
        walk_step(pos, adj, tol, cur, p) matches WalkStep::Found(r) ==> location_clear(pos, tol, p, r),
{
    let nbs = adj[cur as int];
    let len = nbs.len() as int;
    if len > 0 {
        let origin = pos[cur as int];
        let sector = sector_from(pos, nbs, origin, p, tol, 1);
        let cw = nbs[sector - 1];
        let ccw = if sector == len {
            nbs[0]
        } else {
            nbs[sector]
        };
        crate::geometry::lemma_within_at_start(origin, pos[cw as int], tol);
        crate::geometry::lemma_within_at_end(origin, pos[cw as int], tol);
        crate::geometry::lemma_within_at_start(origin, pos[ccw as int], tol);
        crate::geometry::lemma_within_at_end(origin, pos[ccw as int], tol);
    }
}

/// Walking never reports a vertex standing at `p` as anything but the point
/// itself: a finished walk with a nonnegative tolerance reports `OnPoint`
/// exactly at `p`, an edge away from both its ends, and a hull edge or a
/// triangle only where `p` is at none of its vertices and beyond the
/// tolerance of the edges the walk tested.
pub proof fn law_walk_location_clear(pos: Seq<Point>, adj: Seq<Seq<usize>>, tol: int, cur: usize, p: Point, fuel: nat)
    requires
        adjacency_wf(pos, adj),
        (cur as int) < adj.len(),
        tol >= 0,
    ensures
        walk(pos, adj, tol, cur, p, fuel) matches Some(r) ==> location_clear(pos, tol, p, r),
    decreases fuel,
{
    if fuel > 0 {
        lemma_walk_step_clear(pos, adj, tol, cur, p);
        lemma_walk_step_valid(pos, adj, tol, cur, p);
        if let WalkStep::Next(next) = walk_step(pos, adj, tol, cur, p) {
            law_walk_location_clear(pos, adj, tol, next, p, (fuel - 1) as nat);
        }
    }
}

/// The vertex the walk from `cur` stands on after `k` steps, if each of
/// those steps moved on to a neighbour.
pub open spec fn walk_at(pos: Seq<Point>, adj: Seq<Seq<usize>>, tol: int, cur: usize, p: Point, k: nat) -> Option<usize>
    decreases k,
{
    if k == 0 {
        Some(cur)
    } else {
        match walk_step(pos, adj, tol, cur, p) {
            WalkStep::Next(next) => walk_at(pos, adj, tol, next, p, (k - 1) as nat),
            _ => None,
        }
    }
}

proof fn lemma_walk_at_compose(pos: Seq<Point>, adj: Seq<Seq<usize>>, tol: int, cur: usize, p: Point, a: nat, b: nat)
    ensures
        walk_at(pos, adj, tol, cur, p, a + b) == match walk_at(pos, adj, tol, cur, p, a) {
            Some(v) => walk_at(pos, adj, tol, v, p, b),
            None => None,
        },
    decreases a,
{
    if a > 0 {
        if let WalkStep::Next(next) = walk_step(pos, adj, tol, cur, p) {
            lemma_walk_at_compose(pos, adj, tol, next, p, (a - 1) as nat, b);
            assert((a + b - 1) as nat == ((a - 1) as nat + b) as nat);
        }
    }
}

proof fn lemma_walk_at_valid(pos: Seq<Point>, adj: Seq<Seq<usize>>, tol: int, cur: usize, p: Point, k: nat)
    requires
        adjacency_wf(pos, adj),
        (cur as int) < adj.len(),
    ensures
        walk_at(pos, adj, tol, cur, p, k) matches Some(v) ==> (v as int) < adj.len(),
    decreases k,
{
    if k > 0 {
        lemma_walk_step_valid(pos, adj, tol, cur, p);
        if let WalkStep::Next(next) = walk_step(pos, adj, tol, cur, p) {
            lemma_walk_at_valid(pos, adj, tol, next, p, (k - 1) as nat);
        }
    }
}

proof fn lemma_walk_exhausted(pos: Seq<Point>, adj: Seq<Seq<usize>>, tol: int, cur: usize, p: Point, k: nat)
    requires
        walk_at(pos, adj, tol, cur, p, k) is Some,
    ensures
        walk(pos, adj, tol, cur, p, k) == None::<PositionInTriangulation>,
    decreases k,
{
    if k > 0 {
        if let WalkStep::Next(next) = walk_step(pos, adj, tol, cur, p) {
            lemma_walk_exhausted(pos, adj, tol, next, p, (k - 1) as nat);
        }
    }
}

proof fn lemma_walk_none_cases(pos: Seq<Point>, adj: Seq<Seq<usize>>, tol: int, cur: usize, p: Point, fuel: nat)
    requires
        walk(pos, adj, tol, cur, p, fuel) == None::<PositionInTriangulation>,
    ensures
        (forall|k: nat| k <= fuel ==> #[trigger] walk_at(pos, adj, tol, cur, p, k) is Some) || (forall|f: nat|
            #[trigger] walk(pos, adj, tol, cur, p, f) == None::<PositionInTriangulation>),
    decreases fuel,
{
    if fuel > 0 {
        match walk_step(pos, adj, tol, cur, p) {
            WalkStep::Found(r) => {},
            WalkStep::Stuck => {
                assert forall|f: nat| #[trigger] walk(pos, adj, tol, cur, p, f) == None::<PositionInTriangulation> by {}
            },
            WalkStep::Next(next) => {
                lemma_walk_none_cases(pos, adj, tol, next, p, (fuel - 1) as nat);
                if forall|f: nat| #[trigger] walk(pos, adj, tol, next, p, f) == None::<PositionInTriangulation> {
                    assert forall|f: nat| #[trigger] walk(pos, adj, tol, cur, p, f) == None::<PositionInTriangulation> by {
                        if f > 0 {
                            assert(walk(pos, adj, tol, next, p, (f - 1) as nat) == None::<PositionInTriangulation>);
                        }
                    }
                } else {
                    assert forall|k: nat| k <= fuel implies #[trigger] walk_at(pos, adj, tol, cur, p, k) is Some by {
                        if k > 0 {
                            assert(walk_at(pos, adj, tol, next, p, (k - 1) as nat) is Some);
                        }
                    }
                }
            },
        }
    }
}

proof fn lemma_walk_cycle(pos: Seq<Point>, adj: Seq<Seq<usize>>, tol: int, v: usize, p: Point, l: nat, m: nat)
    requires
        l > 0,
        walk_at(pos, adj, tol, v, p, l) == Some(v),
    ensures
        walk_at(pos, adj, tol, v, p, m) is Some,
    decreases m,
{
    if m < l {
        lemma_walk_at_compose(pos, adj, tol, v, p, m, (l - m) as nat);
    } else {
        lemma_walk_at_compose(pos, adj, tol, v, p, l, (m - l) as nat);
        lemma_walk_cycle(pos, adj, tol, v, p, l, (m - l) as nat);
    }
}

/// A sequence of distinct handles below `n` has at most `n` entries.
proof fn lemma_distinct_handles_bound(s: Seq<usize>, n: int)
    requires
        s.no_duplicates(),
        0 <= n,
        forall|i: int| 0 <= i < s.len() ==> (#[trigger] s[i] as int) < n,
    ensures
        s.len() <= n,
{
    let m = s.map_values(|x: usize| x as int);
    assert forall|i: int, j: int| 0 <= i < m.len() && 0 <= j < m.len() && i != j implies m[i] != m[j] by {
        assert(s[i] != s[j]);
    }
    m.unique_seq_to_set();
    vstd::set_lib::lemma_int_range(0, n);
    assert forall|x: int| m.to_set().contains(x) implies vstd::set_lib::set_int_range(0, n).contains(x) by {
        let i = choose|i: int| 0 <= i < m.len() && m[i] == x;
        assert(m[i] == s[i] as int);
    }
    vstd::set_lib::lemma_len_subset(m.to_set(), vstd::set_lib::set_int_range(0, n));
}

/// The walk gives up only where it would never end: if it has not ended
/// after as many steps as there are vertices, no number of steps ends it.
pub proof fn law_walk_gives_up_only_when_endless(pos: Seq<Point>, adj: Seq<Seq<usize>>, tol: int, start: usize, p: Point, k: nat)
    requires
        adjacency_wf(pos, adj),
        (start as int) < pos.len(),
        walk(pos, adj, tol, start, p, pos.len()) == None::<PositionInTriangulation>,
    ensures
        walk(pos, adj, tol, start, p, k) == None::<PositionInTriangulation>,
{
    let n = pos.len();
    lemma_walk_none_cases(pos, adj, tol, start, p, n);
    if forall|f: nat| #[trigger] walk(pos, adj, tol, start, p, f) == None::<PositionInTriangulation> {
        assert(walk(pos, adj, tol, start, p, k) == None::<PositionInTriangulation>);
    } else {
        assert(forall|j: nat| j <= n ==> #[trigger] walk_at(pos, adj, tol, start, p, j) is Some);
        let vs = Seq::new((n + 1) as nat, |j: int| walk_at(pos, adj, tol, start, p, j as nat).unwrap());
        assert forall|j: int| 0 <= j < vs.len() implies (#[trigger] vs[j] as int) < n by {
            assert(walk_at(pos, adj, tol, start, p, j as nat) is Some);
            lemma_walk_at_valid(pos, adj, tol, start, p, j as nat);
        }
        if vs.no_duplicates() {
            lemma_distinct_handles_bound(vs, n as int);
            assert(false);
        }
        let (i, j) = choose|i: int, j: int| 0 <= i < vs.len() && 0 <= j < vs.len() && i != j && vs[i] == vs[j];
        let (a, b) = if i < j { (i, j) } else { (j, i) };
        assert(walk_at(pos, adj, tol, start, p, a as nat) is Some);
        assert(walk_at(pos, adj, tol, start, p, b as nat) is Some);
        let v = vs[a];
        assert(walk_at(pos, adj, tol, start, p, a as nat) == Some(v));
        assert(walk_at(pos, adj, tol, start, p, b as nat) == Some(v));
        lemma_walk_at_compose(pos, adj, tol, start, p, a as nat, (b - a) as nat);
        assert((a as nat + (b - a) as nat) as nat == b as nat);
        assert(walk_at(pos, adj, tol, v, p, (b - a) as nat) == Some(v));
        if k <= a {
            assert(walk_at(pos, adj, tol, start, p, k) is Some);
        } else {
            lemma_walk_cycle(pos, adj, tol, v, p, (b - a) as nat, (k - a) as nat);
            lemma_walk_at_compose(pos, adj, tol, start, p, a as nat, (k - a) as nat);
            assert((a as nat + (k - a) as nat) as nat == k);
        }
        lemma_walk_exhausted(pos, adj, tol, start, p, k);
    }
}

} // verus!
