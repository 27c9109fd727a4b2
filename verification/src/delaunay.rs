//! The Delaunay triangulation: point location, insertion with edge
//! legalization, triangle enumeration, lookups and natural neighbours.
use vstd::prelude::*;
use crate::geometry::{
    approx_contained_in_circle_segment, contained_in_circumference, dist2, distance2, in_range,
    inside_circle, opposite_sides,
    incircle_det, is_on_left_side, is_ordered_ccw, rect_contains, segment_distance_within,
    side_of, signed_side, within_radius, BoundingRect, Point,
};
use crate::hull::{
    hull_edges, hull_pass, is_visible_chain, law_hull_chain, lemma_hull_pass_valid, prepend, reversed,
};
use crate::insertion::{
    existing_vertex, far_vertex, insert_finds_existing, insert_links, no_new_edges_except, connect_all, initial_adj, insert_adj, insert_edge_adj, insert_fails, insert_outside_adj,
    insert_triangle_adj, is_first_nearest, legalize_fuel, legalize_spec, legalize_step,
    lemma_keeps_neighbors, lemma_nearest_exists, lemma_nearest_unique, nearest, nonempty_except, windows,
};
use crate::subdivision::{
    adjacency_wf, adjacent, ccw_neighbor, ccw_sorted, cw_neighbor, lemma_degree_bound,
    lemma_neighbor_in_range,
    PlanarSubdivision,
};
use crate::triangles::is_delaunay;
use crate::walk::{
    lemma_sector_bounds, lemma_walk_finds_vertex, lemma_walk_in_triangle, lemma_walk_step_valid,
    lemma_walk_valid, law_walk_location_clear, located_in_triangle, location_clear,
    position_valid, sector_from,
    walk, walk_step, PositionInTriangulation, WalkStep,
};

verus! {

/// No two vertices share a position.
pub open spec fn distinct_positions(pos: Seq<Point>) -> bool {
    forall|i: int, j: int| 0 <= i < pos.len() && 0 <= j < pos.len() && i != j ==> #[trigger] pos[i]
        != #[trigger] pos[j]
}

/// Once there are three vertices, every vertex has a neighbour.
pub open spec fn connected_vertices(adj: Seq<Seq<usize>>) -> bool {
    adj.len() >= 3 ==> forall|v: int| 0 <= v < adj.len() ==> (#[trigger] adj[v]).len() > 0
}

/// The invariant of a triangulation given by positions and neighbour lists.
pub open spec fn triangulation_wf(pos: Seq<Point>, adj: Seq<Seq<usize>>) -> bool {
    &&& adjacency_wf(pos, adj)
    &&& ccw_sorted(pos, adj)
    &&& connected_vertices(adj)
}

/// Why an insertion could not be carried out.
#[derive(Clone, Copy, Debug, PartialEq, Eq, Structural)]
pub enum InsertError {
    /// Locating the point did not finish: the walk came back to a vertex it
    /// had left, so it would go on forever.
    WalkDidNotFinish,
    /// Walking along the convex hull did not finish.
    HullWalkDidNotFinish,
}

/// `r` lists, in increasing order, exactly the vertices positioned in `rect`.
pub open spec fn lists_in_rect(r: Seq<usize>, pos: Seq<Point>, rect: BoundingRect) -> bool {
    &&& forall|i: int| 0 <= i < r.len() ==> (#[trigger] r[i] as int) < pos.len() && rect_contains(rect, pos[r[i] as int])
    &&& forall|i: int, j: int| 0 <= i < j < r.len() ==> #[trigger] r[i] < #[trigger] r[j]
    &&& forall|h: int| 0 <= h < pos.len() && rect_contains(rect, #[trigger] pos[h]) ==> r.contains(h as usize)
}

/// `r` lists, in increasing order, exactly the vertices at squared distance
/// at most `radius2` from `center`.
pub open spec fn lists_in_circle(r: Seq<usize>, pos: Seq<Point>, center: Point, radius2: int) -> bool {
    &&& forall|i: int| 0 <= i < r.len() ==> (#[trigger] r[i] as int) < pos.len() && dist2(pos[r[i] as int], center) <= radius2
    &&& forall|i: int, j: int| 0 <= i < j < r.len() ==> #[trigger] r[i] < #[trigger] r[j]
    &&& forall|h: int| 0 <= h < pos.len() && dist2(#[trigger] pos[h], center) <= radius2 ==> r.contains(h as usize)
}

/// The outcome of examining the edges on `stack` for the natural neighbours
/// of `p`, with at most `fuel` edges examined; `result` holds the
/// neighbours found so far.
///
/// The last edge `h_from -> h_to` is taken; `h2` is the vertex across it from
/// `p`. If `p` and `h2` are on the same side of the edge (up to the
/// tolerance), or `h2` lies outside the circle through `p`, `h_from` and
/// `h_to`, then `h_from` is a natural neighbour; otherwise the two far edges
/// of the triangle beyond are examined in its place. `None` if an examined
/// pair is not an edge, or the edges are not used up within `fuel` steps.
pub open spec fn inspect_run(pos: Seq<Point>, adj: Seq<Seq<usize>>, tol: int, p: Point, stack: Seq<(usize, usize)>, result: Seq<usize>, fuel: nat) -> Option<Seq<usize>>
    decreases fuel,
{
    if stack.len() == 0 {
        Some(result)
    } else if fuel == 0 {
        None
    } else {
        let (hf, ht) = stack.last();
        let rest = stack.drop_last();
        let f = (fuel - 1) as nat;
        if !adjacent(adj, hf, ht) {
            None
        } else {
            let v0 = pos[hf as int];
            let v1 = pos[ht as int];
            let h2 = if side_of(v0, v1, p) > 0 {
                cw_neighbor(adj, hf, ht)
            } else {
                ccw_neighbor(adj, hf, ht)
            };
            let v2 = pos[h2 as int];
            let ps = side_of(v0, v1, p);
            let vs = side_of(v0, v1, v2);
            if (ps < tol && vs < tol) || (ps > -tol && vs > -tol) {
                inspect_run(pos, adj, tol, p, rest, result.push(hf), f)
            } else {
                let swap = side_of(v0, v1, v2) >= 0;
                let h0 = if swap { ht } else { hf };
                let h1 = if swap { hf } else { ht };
                let a = if swap { v1 } else { v0 };
                let b = if swap { v0 } else { v1 };
                if incircle_det(a, b, v2, p) < 0 {
                    inspect_run(pos, adj, tol, p, rest.push((h2, h1)).push((h0, h2)), result, f)
                } else {
                    inspect_run(pos, adj, tol, p, rest, result.push(hf), f)
                }
            }
        }
    }
}

/// The two edges of the triangle `(u, w, x)` other than `u - w`, directed
/// counterclockwise around it.
pub open spec fn far_edges(pos: Seq<Point>, u: usize, w: usize, x: usize) -> Seq<(usize, usize)> {
    if side_of(pos[u as int], pos[w as int], pos[x as int]) >= 0 {
        seq![(x, u), (w, x)]
    } else {
        seq![(x, w), (u, x)]
    }
}

/// The edge `u - w` lies inside the cavity of `p`: the vertex `x` across it
/// from `p` and `p` lie on opposite sides of it, at least the tolerance off
/// its line, and `p` lies strictly inside the circle through `u`, `w`, `x`.
pub open spec fn cavity_edge(pos: Seq<Point>, adj: Seq<Seq<usize>>, tol: int, u: usize, w: usize, p: Point) -> bool {
    let x = far_vertex(pos, adj, u, w, p);
    &&& adjacent(adj, u, w)
    &&& opposite_sides(side_of(pos[u as int], pos[w as int], p), side_of(pos[u as int], pos[w as int], pos[x as int]), tol)
    &&& inside_circle(pos[u as int], pos[w as int], pos[x as int], p)
}

/// How the search for natural neighbours goes on from the edge `u - w` on
/// top of the stack, for a nonnegative tolerance: a pair that is no edge
/// ends it without result; an edge inside the cavity of `p` is replaced by
/// the two other edges of the triangle beyond it; any other edge is a
/// boundary edge of the cavity, and its first end `u` is a natural
/// neighbour.
pub proof fn law_inspect_step(pos: Seq<Point>, adj: Seq<Seq<usize>>, tol: int, p: Point, stack: Seq<(usize, usize)>, result: Seq<usize>, fuel: nat)
    requires
        tol >= 0,
        stack.len() > 0,
        fuel > 0,
    ensures
        !adjacent(adj, stack.last().0, stack.last().1) ==> inspect_run(pos, adj, tol, p, stack, result, fuel)
            == None::<Seq<usize>>,
        cavity_edge(pos, adj, tol, stack.last().0, stack.last().1, p) ==> inspect_run(pos, adj, tol, p, stack, result, fuel)
            == inspect_run(
            pos,
            adj,
            tol,
            p,
            stack.drop_last() + far_edges(
                pos,
                stack.last().0,
                stack.last().1,
                far_vertex(pos, adj, stack.last().0, stack.last().1, p),
            ),
            result,
            (fuel - 1) as nat,
        ),
        adjacent(adj, stack.last().0, stack.last().1) && !cavity_edge(pos, adj, tol, stack.last().0, stack.last().1, p)
            ==> inspect_run(pos, adj, tol, p, stack, result, fuel) == inspect_run(
            pos,
            adj,
            tol,
            p,
            stack.drop_last(),
            result.push(stack.last().0),
            (fuel - 1) as nat,
        ),
{
    let (hf, ht) = stack.last();
    let tail = stack.drop_last();
    if adjacent(adj, hf, ht) {
        let v0 = pos[hf as int];
        let v1 = pos[ht as int];
        let x = far_vertex(pos, adj, hf, ht, p);
        let v2 = pos[x as int];
        crate::geometry::law_incircle_symmetry(v0, v1, v2, p);
        let swap = side_of(v0, v1, v2) >= 0;
        let e0 = if swap { ht } else { hf };
        let e1 = if swap { hf } else { ht };
        assert(tail.push((x, e1)).push((e0, x)) =~= tail + far_edges(pos, hf, ht, x));
    }
}

/// `v` is the first end of a boundary edge of the cavity of `p`: an edge
/// `v - w` that does not lie inside the cavity.
pub open spec fn on_cavity_boundary(pos: Seq<Point>, adj: Seq<Seq<usize>>, tol: int, p: Point, v: usize) -> bool {
    exists|w: usize| #[trigger] adjacent(adj, v, w) && !cavity_edge(pos, adj, tol, v, w, p)
}

/// Every vertex the search for natural neighbours reports is the first end
/// of a boundary edge of the cavity of `p`.
pub proof fn law_inspect_result_on_boundary(pos: Seq<Point>, adj: Seq<Seq<usize>>, tol: int, p: Point, stack: Seq<(usize, usize)>, result: Seq<usize>, fuel: nat)
    requires
        tol >= 0,
        forall|i: int| 0 <= i < result.len() ==> on_cavity_boundary(pos, adj, tol, p, #[trigger] result[i]),
    ensures
        inspect_run(pos, adj, tol, p, stack, result, fuel) matches Some(r) ==> forall|i: int|
            0 <= i < r.len() ==> on_cavity_boundary(pos, adj, tol, p, #[trigger] r[i]),
    decreases fuel,
{
    if stack.len() > 0 && fuel > 0 {
        law_inspect_step(pos, adj, tol, p, stack, result, fuel);
        let (hf, ht) = stack.last();
        let f = (fuel - 1) as nat;
        if adjacent(adj, hf, ht) {
            if cavity_edge(pos, adj, tol, hf, ht, p) {
                let x = far_vertex(pos, adj, hf, ht, p);
                law_inspect_result_on_boundary(pos, adj, tol, p, stack.drop_last() + far_edges(pos, hf, ht, x), result, f);
            } else {
                let r2 = result.push(hf);
                assert forall|i: int| 0 <= i < r2.len() implies on_cavity_boundary(pos, adj, tol, p, #[trigger] r2[i]) by {
                    if i == result.len() {
                        assert(adjacent(adj, hf, ht) && !cavity_edge(pos, adj, tol, hf, ht, p));
                    } else {
                        assert(r2[i] == result[i]);
                    }
                }
                law_inspect_result_on_boundary(pos, adj, tol, p, stack.drop_last(), r2, f);
            }
        }
    }
}

/// How many edges the search for natural neighbours, starting from `m`
/// edges, may examine in a triangulation of `n` vertices.
pub open spec fn inspect_fuel(n: int, m: int) -> int {
    n * n + m
}

/// With a nonnegative tolerance and distinct positions, inserting `p` finds
/// a vertex already standing there exactly when some vertex stands at `p`.
pub proof fn lemma_finds_existing_iff_contains(pos: Seq<Point>, adj: Seq<Seq<usize>>, tol: int, p: Point)
    requires
        triangulation_wf(pos, adj),
        distinct_positions(pos),
        tol >= 0,
    ensures
        insert_finds_existing(pos, adj, tol, p) == pos.contains(p),
        insert_finds_existing(pos, adj, tol, p) ==> {
            let v = existing_vertex(pos, adj, tol, p);
            0 <= v < pos.len() && pos[v] == p
        },
{
    if pos.len() >= 3 {
        lemma_nearest_exists(pos, p);
        let start = nearest(pos, p);
        lemma_walk_valid(pos, adj, tol, start as usize, p, pos.len());
        if pos.contains(p) {
            let k = choose|k: int| 0 <= k < pos.len() && pos[k] == p;
            crate::geometry::lemma_dist2_nonneg(pos[start], p);
            assert(dist2(pos[k], p) == 0);
            crate::geometry::lemma_dist2_zero(pos[start], p);
            lemma_walk_finds_vertex(pos, adj, tol, start as usize, p);
        }
    } else if pos.contains(p) {
        pos.index_of_first_ensures(p);
    }
}

/// Reading back a write: after inserting `p` with a nonnegative tolerance
/// into a triangulation with distinct positions, the positions stay distinct
/// and the only vertex at `p`, which a lookup of `p` returns, is the one
/// that took the inserted value: the vertex found there, or else the new
/// one.
pub proof fn law_lookup_after_insert(pos: Seq<Point>, adj: Seq<Seq<usize>>, tol: int, p: Point, pos2: Seq<Point>, h: int)
    requires
        triangulation_wf(pos, adj),
        distinct_positions(pos),
        tol >= 0,
        pos2 == if insert_finds_existing(pos, adj, tol, p) { pos } else { pos.push(p) },
        0 <= h < pos2.len(),
        pos2[h] == p,
    ensures
        distinct_positions(pos2),
        h == if insert_finds_existing(pos, adj, tol, p) {
            existing_vertex(pos, adj, tol, p)
        } else {
            pos.len() as int
        },
{
    lemma_finds_existing_iff_contains(pos, adj, tol, p);
    if !insert_finds_existing(pos, adj, tol, p) {
        if h < pos.len() {
            assert(pos[h] == p);
        }
        assert forall|i: int, j: int| 0 <= i < pos2.len() && 0 <= j < pos2.len() && i != j implies #[trigger] pos2[i]
            != #[trigger] pos2[j] by {
            if i < pos.len() && j == pos.len() {
                assert(pos[i] != p);
            } else if j < pos.len() && i == pos.len() {
                assert(pos[j] != p);
            }
        }
    }
}

/// The set of positions after an insertion of `p` is the set before with
/// `p` added.
proof fn lemma_insert_position_set(pos: Seq<Point>, pos2: Seq<Point>, p: Point)
    requires
        pos2 == pos.push(p) || (pos2 == pos && pos.contains(p)),
    ensures
        pos2.to_set() == pos.to_set().insert(p),
{
    assert forall|q: Point| pos2.to_set().contains(q) == pos.to_set().insert(p).contains(q) by {
        if pos2 == pos.push(p) {
            if pos.contains(q) {
                let k = choose|k: int| 0 <= k < pos.len() && pos[k] == q;
                assert(pos2[k] == q);
            }
            if pos2.contains(q) && q != p {
                let k = choose|k: int| 0 <= k < pos2.len() && pos2[k] == q;
                assert(k < pos.len());
                assert(pos[k] == q);
            }
            assert(pos2[pos.len() as int] == p);
        }
    }
    assert(pos2.to_set() =~= pos.to_set().insert(p));
}

/// Counting vertices: where positions are distinct, the number of vertices
/// is the number of distinct points among those inserted, which `insert`
/// keeps as the set of positions.
pub proof fn law_vertex_count(pos: Seq<Point>)
    requires
        distinct_positions(pos),
    ensures
        pos.len() == pos.to_set().len(),
{
    assert(pos.no_duplicates());
    pos.unique_seq_to_set();
}

/// A delaunay triangulation of points with integer coordinates, each vertex
/// holding a value of type `V`.
pub struct DelaunayTriangulation<V> {
    /// The underlying planar subdivision.
    pub s: PlanarSubdivision<V>,
    /// Distance under which a point counts as lying on an edge or a line.
    pub tolerance: i64,
}

impl<V> DelaunayTriangulation<V> {
    /// The triangulation invariant.
    pub open spec fn wf(&self) -> bool {
        &&& triangulation_wf(self.s.positions(), self.s.adj())
        &&& self.s.data().len() == self.s.positions().len()
    }

    /// An empty triangulation with zero tolerance.
    pub fn new() -> (d: Self)
        ensures
            d.wf(),
            d.s.positions() == Seq::<Point>::empty(),
            d.s.adj() == Seq::<Seq<usize>>::empty(),
            d.s.data() == Seq::<V>::empty(),
            d.tolerance == 0,
    {
        DelaunayTriangulation { s: PlanarSubdivision::new(), tolerance: 0 }
    }

    /// Sets the tolerance.
    pub fn set_tolerance(&mut self, tolerance: i64)
        ensures
            final(self).tolerance == tolerance,
            final(self).s == old(self).s,
    {
        self.tolerance = tolerance;
    }

    /// Number of vertices.
    pub fn num_vertices(&self) -> (n: usize)
        ensures
            n == self.s.positions().len(),
    {
        self.s.num_vertices()
    }

    /// The underlying planar subdivision.
    pub fn subdiv(&self) -> (s: &PlanarSubdivision<V>)
        ensures
            *s == self.s,
    {
        &self.s
    }

    /// The first vertex nearest to `p`.
    fn nearest_vertex(&self, p: Point) -> (r: usize)
        requires
            self.wf(),
            in_range(p),
            self.s.positions().len() > 0,
        ensures
            is_first_nearest(self.s.positions(), p, r as int),
    {
        let n = self.s.num_vertices();
        let ghost pos = self.s.positions();
        let mut best: usize = 0;
        let mut best_d = distance2(self.s.position(0), p);
        let mut i: usize = 1;
        while i < n
            invariant
                self.wf(),
                in_range(p),
                pos == self.s.positions(),
                n == pos.len(),
                1 <= i <= n,
                best < i,
                best_d == dist2(pos[best as int], p),
                forall|j: int| 0 <= j < i ==> dist2(pos[best as int], p) <= #[trigger] dist2(pos[j], p),
                forall|j: int| 0 <= j < best ==> dist2(pos[best as int], p) < #[trigger] dist2(pos[j], p),
            decreases n - i,
        {
            let q = self.s.position(i);
            let d = distance2(q, p);
            if d < best_d {
                best = i;
                best_d = d;
            }
            i = i + 1;
        }
        best
    }

    /// The sector around `cur` that holds `p`.
    fn find_sector(&self, cur: usize, p: Point) -> (sector: usize)
        requires
            self.wf(),
            cur < self.s.positions().len(),
            in_range(p),
            self.s.adj()[cur as int].len() > 0,
        ensures
            sector as int == sector_from(
                self.s.positions(),
                self.s.adj()[cur as int],
                self.s.positions()[cur as int],
                p,
                self.tolerance as int,
                1,
            ),
    {
        let ghost pos = self.s.positions();
        let ghost adj = self.s.adj();
        let tol = self.tolerance;
        let nbs = self.s.neighbors(cur);
        let len = nbs.len();
        let origin = self.s.position(cur);
        proof {
            assert forall|j: int| 0 <= j < nbs@.len() implies (#[trigger] nbs@[j] as int) < pos.len() by {
                assert((adj[cur as int][j] as int) < adj.len());
            }
        }
        let mut i: usize = 1;
        while i < len
            invariant
                self.wf(),
                pos == self.s.positions(),
                adj == self.s.adj(),
                tol == self.tolerance,
                cur < pos.len(),
                nbs@ == adj[cur as int],
                len == nbs@.len(),
                origin == pos[cur as int],
                in_range(p),
                forall|j: int| 0 <= j < nbs@.len() ==> (#[trigger] nbs@[j] as int) < pos.len(),
                1 <= i <= len,
                sector_from(pos, nbs@, origin, p, tol as int, i as int) == sector_from(
                    pos,
                    nbs@,
                    origin,
                    p,
                    tol as int,
                    1,
                ),
            decreases len - i,
        {
            let cw_pos = self.s.position(nbs[i - 1]);
            let ccw_pos = self.s.position(nbs[i]);
            if approx_contained_in_circle_segment(origin, cw_pos, ccw_pos, p, tol) {
                return i;
            }
            i = i + 1;
        }
        len
    }

    /// One walk step, computed.
    fn walk_step_exec(&self, cur: usize, p: Point) -> (r: WalkStep)
        requires
            self.wf(),
            cur < self.s.positions().len(),
            in_range(p),
        ensures
            r == walk_step(self.s.positions(), self.s.adj(), self.tolerance as int, cur, p),
    {
        let ghost pos = self.s.positions();
        let ghost adj = self.s.adj();
        let tol = self.tolerance;
        let nbs = self.s.neighbors(cur);
        let len = nbs.len();
        if len == 0 {
            return WalkStep::Stuck;
        }
        let origin = self.s.position(cur);
        proof {
            assert forall|j: int| 0 <= j < nbs@.len() implies (#[trigger] nbs@[j] as int) < pos.len() by {
                assert((adj[cur as int][j] as int) < adj.len());
            }
        }
        let sector = self.find_sector(cur, p);
        proof {
            lemma_sector_bounds(pos, nbs@, origin, p, tol as int, 1);
        }
        assert(sector as int == sector_from(pos, nbs@, origin, p, tol as int, 1));
        let cw = nbs[sector - 1];
        let ccw = if sector == len {
            nbs[0]
        } else {
            nbs[sector]
        };
        let cw_pos = self.s.position(cw);
        let ccw_pos = self.s.position(ccw);
        if segment_distance_within(origin, cw_pos, p, tol) {
            if p == cw_pos {
                return WalkStep::Found(PositionInTriangulation::OnPoint(cw));
            }
            if p == origin {
                return WalkStep::Found(PositionInTriangulation::OnPoint(cur));
            }
            return WalkStep::Found(PositionInTriangulation::OnEdge(cw, cur));
        }
        if segment_distance_within(origin, ccw_pos, p, tol) {
            if p == ccw_pos {
                return WalkStep::Found(PositionInTriangulation::OnPoint(ccw));
            }
            return WalkStep::Found(PositionInTriangulation::OnEdge(cur, ccw));
        }
        if signed_side(cw_pos, ccw_pos, origin) < 0 {
            if signed_side(origin, cw_pos, p) > tol as i128 {
                return WalkStep::Found(PositionInTriangulation::OutsideConvexHull(cur, cw));
            } else {
                return WalkStep::Found(PositionInTriangulation::OutsideConvexHull(cur, ccw));
            }
        }
        if signed_side(cw_pos, ccw_pos, p) > 0 {
            return WalkStep::Found(PositionInTriangulation::InTriangle(cw, ccw, cur));
        }
        if distance2(cw_pos, p) < distance2(ccw_pos, p) {
            WalkStep::Next(cw)
        } else {
            WalkStep::Next(ccw)
        }
    }

    /// Locates `p` by walking from `start` for at most as many steps as
    /// there are vertices.
    pub fn get_position_in_triangulation(&self, start: usize, p: Point) -> (r: Option<PositionInTriangulation>)
        requires
            self.wf(),
            self.s.positions().len() >= 3,
            start < self.s.positions().len(),
            in_range(p),
        ensures
            r == walk(
                self.s.positions(),
                self.s.adj(),
                self.tolerance as int,
                start,
                p,
                self.s.positions().len(),
            ),
            r matches Some(x) ==> position_valid(self.s.positions(), self.s.adj(), self.tolerance as int, p, x),
            self.tolerance >= 0 && distinct_positions(self.s.positions()) && self.s.positions().len() >= 3
                && self.s.positions()[start as int] == p ==> r == Some(PositionInTriangulation::OnPoint(start)),
            self.tolerance >= 0 && distinct_positions(self.s.positions()) ==> (r matches Some(x)
                ==> located_in_triangle(self.s.positions(), self.tolerance as int, p, x)),
            self.tolerance >= 0 ==> (r matches Some(x) ==> location_clear(self.s.positions(), self.tolerance as int, p, x)),
    {
        let ghost pos = self.s.positions();
        let ghost adj = self.s.adj();
        let ghost tol = self.tolerance as int;
        let n = self.s.num_vertices();
        proof {
            lemma_walk_valid(pos, adj, tol, start, p, n as nat);
            if tol >= 0 && distinct_positions(pos) && n >= 3 && pos[start as int] == p {
                lemma_walk_finds_vertex(pos, adj, tol, start, p);
            }
            if tol >= 0 && distinct_positions(pos) {
                lemma_walk_in_triangle(pos, adj, tol, start, p, n as nat);
            }
            if tol >= 0 {
                law_walk_location_clear(pos, adj, tol, start, p, n as nat);
            }
        }
        let mut cur = start;
        let mut fuel = n;
        while fuel > 0
            invariant
                self.wf(),
                pos == self.s.positions(),
                adj == self.s.adj(),
                tol == self.tolerance as int,
                in_range(p),
                cur < pos.len(),
                n == pos.len(),
                fuel <= n,
                walk(pos, adj, tol, start, p, n as nat) == walk(pos, adj, tol, cur, p, fuel as nat),
                tol >= 0 && distinct_positions(pos) && n >= 3 && pos[start as int] == p ==> walk(
                    pos,
                    adj,
                    tol,
                    start,
                    p,
                    n as nat,
                ) == Some(PositionInTriangulation::OnPoint(start)),
                tol >= 0 && distinct_positions(pos) ==> (walk(pos, adj, tol, start, p, n as nat) matches Some(x)
                    ==> located_in_triangle(pos, tol, p, x)),
                tol >= 0 ==> (walk(pos, adj, tol, start, p, n as nat) matches Some(x) ==> location_clear(pos, tol, p, x)),
            decreases fuel,
        {
            let step = self.walk_step_exec(cur, p);
            proof {
                lemma_walk_step_valid(pos, adj, tol, cur, p);
            }
            match step {
                WalkStep::Found(r) => {
                    assert(walk(pos, adj, tol, cur, p, fuel as nat) == Some(r));
                    return Some(r);
                },
                WalkStep::Stuck => {
                    assert(walk(pos, adj, tol, cur, p, fuel as nat) == None::<PositionInTriangulation>);
                    return None;
                },
                WalkStep::Next(next) => {
                    assert(walk(pos, adj, tol, cur, p, fuel as nat) == walk(pos, adj, tol, next, p, (fuel - 1) as nat));
                    cur = next;
                    fuel = fuel - 1;
                },
            }
        }
        None
    }

    /// Restores the Delaunay property around a newly inserted vertex.
    ///
    /// Each edge taken from `edges` lies opposite the new vertex. If the
    /// vertex across the edge lies inside the circumcircle of the new vertex
    /// and the edge's ends, the edge is flipped, so that it now ends at the new
    /// vertex, and the two edges of the far triangle are examined in turn.
    /// Only edges that still exist and form a flippable quadrilateral with the
    /// new vertex are flipped; each flip gives the new vertex one more
    /// neighbour, which bounds the work.
    fn legalize_edges(&mut self, edges: Vec<(usize, usize)>, new_vertex: usize)
        requires
            old(self).wf(),
            new_vertex < old(self).s.positions().len(),
            forall|i: int|
                0 <= i < edges@.len() ==> (#[trigger] edges@[i]).0 < old(self).s.positions().len()
                    && edges@[i].1 < old(self).s.positions().len() && edges@[i].0 != new_vertex
                    && edges@[i].1 != new_vertex,
        ensures
            final(self).wf(),
            final(self).s.positions() == old(self).s.positions(),
            final(self).s.data() == old(self).s.data(),
            final(self).tolerance == old(self).tolerance,
            forall|w: usize| #[trigger]
                adjacent(old(self).s.adj(), new_vertex, w) ==> adjacent(final(self).s.adj(), new_vertex, w),
            no_new_edges_except(old(self).s.adj(), final(self).s.adj(), new_vertex),
            final(self).s.adj() == legalize_spec(
                old(self).s.positions(),
                old(self).s.adj(),
                old(self).tolerance as int,
                new_vertex,
                edges@,
                legalize_fuel(edges@, old(self).s.positions().len() as int),
            ),
    {
        let ghost pos = self.s.positions();
        let ghost adj0 = self.s.adj();
        let n = self.s.num_vertices();
        let tol = self.tolerance as i128;
        let position = self.s.position(new_vertex);
        let ghost tolerance = self.tolerance as int;
        let ghost edges0 = edges@;
        let ghost total = legalize_spec(pos, adj0, tolerance, new_vertex, edges0, legalize_fuel(edges0, n as int));
        let ghost mut fuel: nat = legalize_fuel(edges0, n as int);
        let mut stack = edges;
        proof {
            lemma_degree_bound(pos, adj0, new_vertex as int);
        }
        while stack.len() > 0
            invariant
                self.wf(),
                self.s.positions() == pos,
                self.s.data() == old(self).s.data(),
                n == pos.len(),
                tol == self.tolerance as i128,
                no_new_edges_except(adj0, self.s.adj(), new_vertex),
                self.tolerance == old(self).tolerance,
                new_vertex < n,
                position == pos[new_vertex as int],
                forall|i: int|
                    0 <= i < stack@.len() ==> (#[trigger] stack@[i]).0 < n && stack@[i].1 < n
                        && stack@[i].0 != new_vertex && stack@[i].1 != new_vertex,
                forall|w: usize| #[trigger]
                    adjacent(adj0, new_vertex, w) ==> adjacent(self.s.adj(), new_vertex, w),
                self.s.adj()[new_vertex as int].len() <= n - 1,
                edges0 == edges@,
                tolerance == self.tolerance as int,
                total == legalize_spec(pos, adj0, tolerance, new_vertex, edges0, legalize_fuel(edges0, n as int)),
                total == legalize_spec(pos, self.s.adj(), tolerance, new_vertex, stack@, fuel),
                fuel >= stack@.len() + 2 * (n - 1 - self.s.adj()[new_vertex as int].len()),
            decreases n - self.s.adj()[new_vertex as int].len(), stack@.len(),
        {
            let ghost adj_before = self.s.adj();
            let ghost stack_before = stack@;
            let ghost step = legalize_step(pos, adj_before, tolerance, new_vertex, stack_before);
            let (h_from, h_to) = stack.pop().unwrap();
            assert(stack_before.last() == (h_from, h_to));
            assert(stack@ == stack_before.drop_last());
            assert(h_from < n && h_to < n && h_from != new_vertex && h_to != new_vertex);
            if self.s.is_connected(h_from, h_to) {
                let v0 = self.s.position(h_from);
                let v1 = self.s.position(h_to);
                let left = is_on_left_side(v0, v1, position);
                let cw = self.s.cw_neighbor_of(h_from, h_to);
                let ccw = self.s.ccw_neighbor_of(h_from, h_to);
                let (h2, other) = if left {
                    (cw, ccw)
                } else {
                    (ccw, cw)
                };
                proof {
                    lemma_neighbor_in_range(pos, self.s.adj(), h_from, h2);
                }
                let v2 = self.s.position(h2);
                let pos_side = signed_side(v0, v1, position);
                let v2_side = signed_side(v0, v1, v2);
                if !((pos_side < tol && v2_side < tol) || (pos_side > -tol && v2_side > -tol)) {
                    let mut h0 = h_from;
                    let mut h1 = h_to;
                    let mut a = v0;
                    let mut b = v1;
                    if is_ordered_ccw(v0, v1, v2) {
                        h0 = h_to;
                        h1 = h_from;
                        a = v1;
                        b = v0;
                    }
                    if contained_in_circumference(a, b, v2, position) && other == new_vertex && h2
                        != new_vertex && self.s.is_flippable(h_from, h_to) {
                        let ghost adj1 = self.s.adj();
                        let ghost deg1 = adj1[new_vertex as int].len();
                        self.s.flip_edge_cw(h_from, h_to);
                        proof {
                            let adj2 = self.s.adj();
                            assert(adj2[new_vertex as int].len() == deg1 + 1);
                            lemma_degree_bound(pos, adj2, new_vertex as int);
                            assert forall|w: usize| #[trigger]
                                adjacent(adj0, new_vertex, w) implies adjacent(adj2, new_vertex, w) by {
                                assert(adjacent(adj1, new_vertex, w));
                            }
                            assert forall|v: usize, w: usize|
                                #[trigger] adjacent(adj2, v, w) && v != new_vertex && w != new_vertex
                                    implies adjacent(adj0, v, w) by {
                                assert(adjacent(adj1, v, w));
                            }
                            assert forall|v: int| 0 <= v < adj2.len() implies (#[trigger] adj2[v]).len() > 0 by {
                                if v == h_from as int {
                                    assert(adjacent(adj2, h_from, cw));
                                } else if v == h_to as int {
                                    assert(adjacent(adj1, h_to, cw));
                                    assert(adjacent(adj2, h_to, cw));
                                } else if v == cw as int || v == ccw as int {
                                } else {
                                    assert(adj2[v] == adj1[v]);
                                }
                            }
                        }
                        stack.push((h0, h2));
                        stack.push((h1, h2));
                    }
                }
            }
            proof {
                assert(step == (self.s.adj(), stack@));
                assert(fuel > 0);
                fuel = (fuel - 1) as nat;
            }
        }
    }

    /// One pass of the walk along the convex hull, computed.
    fn hull_pass_exec(&self, a: usize, b: usize, p: Point, follow_cw: bool, fuel: u128) -> (r: Option<Vec<usize>>)
        requires
            self.wf(),
            adjacent(self.s.adj(), a, b),
            in_range(p),
        ensures
            match r {
                Some(v) => hull_pass(self.s.positions(), self.s.adj(), self.tolerance as int, p, a, b, follow_cw, fuel as nat) == Some(v@),
                None => hull_pass(self.s.positions(), self.s.adj(), self.tolerance as int, p, a, b, follow_cw, fuel as nat) == None::<Seq<usize>>,
            },
    {
        let ghost pos = self.s.positions();
        let ghost adj = self.s.adj();
        let ghost tol = self.tolerance as int;
        let ghost total = hull_pass(pos, adj, tol, p, a, b, follow_cw, fuel as nat);
        let t = self.tolerance as i128;
        let mut acc: Vec<usize> = Vec::new();
        let mut x = a;
        let mut y = b;
        let mut f = fuel;
        while f > 0
            invariant
                self.wf(),
                pos == self.s.positions(),
                adj == self.s.adj(),
                tol == self.tolerance as int,
                t == tol,
                in_range(p),
                adjacent(adj, x, y),
                total == prepend(acc@, hull_pass(pos, adj, tol, p, x, y, follow_cw, f as nat)),
                total == hull_pass(pos, adj, tol, p, a, b, follow_cw, fuel as nat),
            decreases f,
        {
            assert(adjacent(adj, y, x));
            let c = if follow_cw {
                self.s.cw_neighbor_of(y, x)
            } else {
                self.s.ccw_neighbor_of(y, x)
            };
            proof {
                lemma_neighbor_in_range(pos, adj, y, c);
                lemma_neighbor_in_range(pos, adj, y, x);
            }
            let pb = self.s.position(y);
            let pc = self.s.position(c);
            let side = signed_side(pb, pc, p);
            if (side > t || side < -t) && (side > 0) == follow_cw {
                proof {
                    let rest = hull_pass(pos, adj, tol, p, y, c, follow_cw, (f - 1) as nat);
                    match rest {
                        Some(tail) => {
                            assert(acc@ + (seq![c] + tail) =~= acc@.push(c) + tail);
                        },
                        None => {},
                    }
                }
                acc.push(c);
                x = y;
                y = c;
                f = f - 1;
            } else {
                assert(hull_pass(pos, adj, tol, p, x, y, follow_cw, f as nat) == Some(Seq::<usize>::empty()));
                assert(acc@ + Seq::<usize>::empty() =~= acc@);
                assert(total == Some(acc@));
                return Some(acc);
            }
        }
        None
    }

    /// The convex hull vertices visible from `p`, which lies outside the
    /// hull beyond the edge `v1 - v2`, in order along the hull.
    fn get_convex_hull_edges_for_point(&self, v1: usize, v2: usize, p: Point) -> (r: Option<Vec<usize>>)
        requires
            self.wf(),
            adjacent(self.s.adj(), v1, v2),
            in_range(p),
        ensures
            match r {
                Some(v) => hull_edges(
                    self.s.positions(),
                    self.s.adj(),
                    self.tolerance as int,
                    p,
                    v1,
                    v2,
                    self.s.positions().len() * self.s.positions().len(),
                ) == Some(v@),
                None => hull_edges(
                    self.s.positions(),
                    self.s.adj(),
                    self.tolerance as int,
                    p,
                    v1,
                    v2,
                    self.s.positions().len() * self.s.positions().len(),
                ) == None::<Seq<usize>>,
            },
            r matches Some(v) ==> is_visible_chain(
                self.s.positions(),
                self.s.adj(),
                self.tolerance as int,
                p,
                v1,
                v2,
                v@,
            ),
    {
        let n = self.s.num_vertices();
        assert(n <= usize::MAX);
        proof {
            law_hull_chain(
                self.s.positions(),
                self.s.adj(),
                self.tolerance as int,
                p,
                v1,
                v2,
                (n * n) as nat,
            );
            crate::geometry::lemma_square_nonneg(n as int);
            assert((n as int) * (n as int) <= (usize::MAX as int) * (usize::MAX as int)) by (nonlinear_arith)
                requires
                    0 <= n <= usize::MAX,
            ;
            assert((usize::MAX as int) * (usize::MAX as int) <= u128::MAX);
        }
        let fuel = (n as u128) * (n as u128);
        assert(adjacent(self.s.adj(), v2, v1));
        proof {
            lemma_neighbor_in_range(self.s.positions(), self.s.adj(), v1, v2);
        }
        let p1 = self.s.position(v1);
        let p2 = self.s.position(v2);
        let cw1 = is_on_left_side(p1, p2, p);
        let cw2 = is_on_left_side(p2, p1, p);
        let front = match self.hull_pass_exec(v1, v2, p, cw1, fuel) {
            Some(f) => f,
            None => {
                return None;
            },
        };
        let back = match self.hull_pass_exec(v2, v1, p, cw2, fuel) {
            Some(b) => b,
            None => {
                return None;
            },
        };
        let mut result: Vec<usize> = Vec::new();
        let len = back.len();
        let mut i: usize = len;
        while i > 0
            invariant
                len == back@.len(),
                i <= len,
                result@ =~= Seq::new((len - i) as nat, |k: int| back@[len - 1 - k]),
            decreases i,
        {
            result.push(back[i - 1]);
            i = i - 1;
        }
        assert(result@ =~= reversed(back@));
        result.push(v1);
        result.push(v2);
        let mut front = front;
        let ghost f = front@;
        result.append(&mut front);
        assert(result@ =~= reversed(back@) + seq![v1, v2] + f);
        Some(result)
    }

    /// Inserts `p`, which lies outside the convex hull beyond the edge
    /// `v1 - v2`, connecting it to every hull vertex it sees.
    fn insert_outside_convex_hull(&mut self, v1: usize, v2: usize, p: Point, value: V) -> (r: Option<usize>)
        requires
            old(self).wf(),
            old(self).s.positions().len() >= 3,
            old(self).s.positions().len() < usize::MAX,
            adjacent(old(self).s.adj(), v1, v2),
            in_range(p),
        ensures
            match r {
                Some(h) => {
                    &&& final(self).wf()
                    &&& h == old(self).s.positions().len()
                    &&& final(self).s.positions() == old(self).s.positions().push(p)
                    &&& final(self).s.data() == old(self).s.data().push(value)
                    &&& final(self).tolerance == old(self).tolerance
                    &&& hull_edges(
                        old(self).s.positions(),
                        old(self).s.adj(),
                        old(self).tolerance as int,
                        p,
                        v1,
                        v2,
                        old(self).s.positions().len() * old(self).s.positions().len(),
                    ) matches Some(hs) && final(self).s.adj() == insert_outside_adj(
                        old(self).s.positions(),
                        old(self).s.adj(),
                        old(self).tolerance as int,
                        p,
                        hs,
                    )
                    &&& hull_edges(
                        old(self).s.positions(),
                        old(self).s.adj(),
                        old(self).tolerance as int,
                        p,
                        v1,
                        v2,
                        old(self).s.positions().len() * old(self).s.positions().len(),
                    ) != None::<Seq<usize>>
                    &&& hull_edges(
                        old(self).s.positions(),
                        old(self).s.adj(),
                        old(self).tolerance as int,
                        p,
                        v1,
                        v2,
                        old(self).s.positions().len() * old(self).s.positions().len(),
                    ) matches Some(hs) && forall|i: int|
                        0 <= i < hs.len() ==> adjacent(final(self).s.adj(), h, #[trigger] hs[i])
                    &&& no_new_edges_except(old(self).s.adj(), final(self).s.adj(), h)
                },
                None => {
                    &&& *final(self) == *old(self)
                    &&& hull_edges(
                        old(self).s.positions(),
                        old(self).s.adj(),
                        old(self).tolerance as int,
                        p,
                        v1,
                        v2,
                        old(self).s.positions().len() * old(self).s.positions().len(),
                    ) == None::<Seq<usize>>
                },
            },
    {
        let ghost pos0 = self.s.positions();
        let ghost adj0 = self.s.adj();
        let ghost tol = self.tolerance as int;
        let handles = match self.get_convex_hull_edges_for_point(v1, v2, p) {
            Some(h) => h,
            None => {
                return None;
            },
        };
        let n = self.s.num_vertices();
        proof {
            assert(adjacent(adj0, v2, v1));
            let cw1 = side_of(pos0[v1 as int], pos0[v2 as int], p) > 0;
            let cw2 = side_of(pos0[v2 as int], pos0[v1 as int], p) > 0;
            let fuel = (n * n) as nat;
            lemma_hull_pass_valid(pos0, adj0, tol, p, v1, v2, cw1, fuel);
            lemma_hull_pass_valid(pos0, adj0, tol, p, v2, v1, cw2, fuel);
            let front = hull_pass(pos0, adj0, tol, p, v1, v2, cw1, fuel).unwrap();
            let back = hull_pass(pos0, adj0, tol, p, v2, v1, cw2, fuel).unwrap();
            assert(handles@ == reversed(back) + seq![v1, v2] + front);
            lemma_neighbor_in_range(pos0, adj0, v1, v2);
            assert forall|i: int| 0 <= i < handles@.len() implies (#[trigger] handles@[i] as int) < n by {
                let rb = reversed(back);
                if i < rb.len() {
                    assert(handles@[i] == back[back.len() - 1 - i]);
                } else if i < rb.len() + 2 {
                } else {
                    assert(handles@[i] == front[i - rb.len() - 2]);
                }
            }
            assert(handles@.len() >= 2);
        }
        let new_handle = self.s.insert_vertex(p, value);
        let ghost data1 = self.s.data();
        assert(self.s.adj() == connect_all(pos0.push(p), adj0.push(Seq::<usize>::empty()), handles@, new_handle, 0));
        proof {
            assert forall|v: usize, w: usize| #[trigger] adjacent(self.s.adj(), v, w) && v != new_handle
                && w != new_handle implies adjacent(adj0, v, w) by {
                assert(self.s.adj()[v as int] == adj0[v as int]);
            }
            assert forall|a: usize, b: usize| #[trigger] adjacent(adj0, a, b) implies adjacent(self.s.adj(), a, b) by {
                assert(self.s.adj()[a as int] == adj0[a as int]);
            }
            lemma_keeps_neighbors(adj0, self.s.adj(), new_handle as int);
        }
        let mut i: usize = 0;
        while i < handles.len()
            invariant
                self.s.wf(),
                ccw_sorted(self.s.positions(), self.s.adj()),
                self.tolerance == old(self).tolerance,
                self.s.positions() == pos0.push(p),
                self.s.data() == data1,
                new_handle == n,
                n == pos0.len(),
                0 <= i <= handles@.len(),
                handles@.len() >= 2,
                forall|j: int| 0 <= j < handles@.len() ==> (#[trigger] handles@[j] as int) < n,
                nonempty_except(self.s.adj(), new_handle as int),
                i > 0 ==> self.s.adj()[new_handle as int].len() > 0,
                forall|j: int| 0 <= j < i ==> adjacent(self.s.adj(), new_handle, #[trigger] handles@[j]),
                no_new_edges_except(adj0, self.s.adj(), new_handle),
                self.s.adj() == connect_all(pos0.push(p), adj0.push(Seq::<usize>::empty()), handles@, new_handle, i as int),
            decreases handles@.len() - i,
        {
            let h = handles[i];
            let ghost a1 = self.s.adj();
            self.s.connect(h, new_handle);
            proof {
                assert forall|j: int| 0 <= j < i + 1 implies adjacent(self.s.adj(), new_handle, #[trigger] handles@[j]) by {
                    if j < i {
                        assert(adjacent(a1, new_handle, handles@[j]));
                    }
                }
                assert forall|v: usize, w: usize| #[trigger] adjacent(self.s.adj(), v, w) && v != new_handle
                    && w != new_handle implies adjacent(adj0, v, w) by {
                    assert(adjacent(a1, v, w));
                }
                lemma_keeps_neighbors(a1, self.s.adj(), new_handle as int);
                assert(adjacent(self.s.adj(), new_handle, h));
                assert(self.s.adj()[new_handle as int].contains(h));
            }
            i = i + 1;
        }
        let mut illegal: Vec<(usize, usize)> = Vec::new();
        let mut j: usize = 1;
        while j < handles.len()
            invariant
                1 <= j <= handles@.len(),
                forall|k: int| 0 <= k < handles@.len() ==> (#[trigger] handles@[k] as int) < n,
                n == pos0.len(),
                forall|k: int| 0 <= k < illegal@.len() ==> (#[trigger] illegal@[k]).0 < n && illegal@[k].1 < n,
                illegal@ =~= Seq::new((j - 1) as nat, |k: int| (handles@[k], handles@[k + 1])),
            decreases handles@.len() - j,
        {
            illegal.push((handles[j - 1], handles[j]));
            j = j + 1;
        }
        assert(illegal@ =~= windows(handles@));
        self.legalize_edges(illegal, new_handle);
        Some(new_handle)
    }

    /// Inserts `p`, which lies inside the triangle `(a, b, c)`.
    fn insert_into_triangle(&mut self, a: usize, b: usize, c: usize, p: Point, value: V) -> (h: usize)
        requires
            old(self).wf(),
            old(self).s.positions().len() >= 3,
            old(self).s.positions().len() < usize::MAX,
            a < old(self).s.positions().len(),
            b < old(self).s.positions().len(),
            c < old(self).s.positions().len(),
            in_range(p),
        ensures
            final(self).wf(),
            h == old(self).s.positions().len(),
            final(self).s.positions() == old(self).s.positions().push(p),
            final(self).s.data() == old(self).s.data().push(value),
            final(self).tolerance == old(self).tolerance,
            final(self).s.adj() == insert_triangle_adj(
                old(self).s.positions(),
                old(self).s.adj(),
                old(self).tolerance as int,
                p,
                a,
                b,
                c,
            ),
            adjacent(final(self).s.adj(), h, a),
            adjacent(final(self).s.adj(), h, b),
            adjacent(final(self).s.adj(), h, c),
            no_new_edges_except(old(self).s.adj(), final(self).s.adj(), h),
    {
        let ghost adj0 = self.s.adj();
        let n = self.s.num_vertices();
        let new_handle = self.s.insert_vertex(p, value);
        proof {
            assert forall|x: usize, y: usize| #[trigger] adjacent(adj0, x, y) implies adjacent(self.s.adj(), x, y) by {
                assert(self.s.adj()[x as int] == adj0[x as int]);
            }
            lemma_keeps_neighbors(adj0, self.s.adj(), new_handle as int);
        }
        let ghost a1 = self.s.adj();
        self.s.connect(a, new_handle);
        let ghost a2 = self.s.adj();
        self.s.connect(b, new_handle);
        let ghost a3 = self.s.adj();
        self.s.connect(c, new_handle);
        proof {
            lemma_keeps_neighbors(a1, a2, new_handle as int);
            lemma_keeps_neighbors(a2, a3, new_handle as int);
            lemma_keeps_neighbors(a3, self.s.adj(), new_handle as int);
            assert(adjacent(self.s.adj(), new_handle, c));
            assert(self.s.adj()[new_handle as int].contains(c));
            assert(adjacent(self.s.adj(), new_handle, a));
            assert(adjacent(self.s.adj(), new_handle, b));
            assert forall|v: usize, w: usize| #[trigger] adjacent(self.s.adj(), v, w) && v != new_handle
                && w != new_handle implies adjacent(adj0, v, w) by {
                assert(adjacent(a1, v, w));
                assert(a1[v as int] == adj0[v as int]);
            }
        }
        let illegal = vec![(a, b), (b, c), (c, a)];
        assert(illegal@ =~= seq![(a, b), (b, c), (c, a)]);
        self.legalize_edges(illegal, new_handle);
        new_handle
    }

    /// Inserts `p`, which lies on the edge `v1 - v2`: the edge is replaced by
    /// edges from `p` to its ends and to the vertices across it.
    #[verifier::rlimit(40)]
    fn insert_on_edge(&mut self, v1: usize, v2: usize, p: Point, value: V) -> (h: usize)
        requires
            old(self).wf(),
            old(self).s.positions().len() >= 3,
            old(self).s.positions().len() < usize::MAX,
            adjacent(old(self).s.adj(), v1, v2),
            in_range(p),
        ensures
            final(self).wf(),
            h == old(self).s.positions().len(),
            final(self).s.positions() == old(self).s.positions().push(p),
            final(self).s.data() == old(self).s.data().push(value),
            final(self).tolerance == old(self).tolerance,
            final(self).s.adj() == insert_edge_adj(
                old(self).s.positions(),
                old(self).s.adj(),
                old(self).tolerance as int,
                p,
                v1,
                v2,
            ),
            adjacent(final(self).s.adj(), h, v1),
            adjacent(final(self).s.adj(), h, v2),
            !adjacent(final(self).s.adj(), v1, v2),
            side_of(
                old(self).s.positions()[v1 as int],
                old(self).s.positions()[v2 as int],
                old(self).s.positions()[cw_neighbor(old(self).s.adj(), v1, v2) as int],
            ) < -old(self).tolerance ==> adjacent(final(self).s.adj(), h, cw_neighbor(old(self).s.adj(), v1, v2)),
            side_of(
                old(self).s.positions()[v1 as int],
                old(self).s.positions()[v2 as int],
                old(self).s.positions()[ccw_neighbor(old(self).s.adj(), v1, v2) as int],
            ) > old(self).tolerance ==> adjacent(final(self).s.adj(), h, ccw_neighbor(old(self).s.adj(), v1, v2)),
            no_new_edges_except(old(self).s.adj(), final(self).s.adj(), h),
    {
        let ghost adj0 = self.s.adj();
        let n = self.s.num_vertices();
        let tol = self.tolerance as i128;
        assert(adjacent(adj0, v2, v1));
        proof {
            lemma_neighbor_in_range(self.s.positions(), adj0, v1, v2);
        }
        let new_handle = self.s.insert_vertex(p, value);
        let ghost a1 = self.s.adj();
        proof {
            assert forall|x: usize, y: usize| #[trigger] adjacent(adj0, x, y) implies adjacent(a1, x, y) by {
                assert(a1[x as int] == adj0[x as int]);
            }
            assert forall|x: usize, y: usize| #[trigger] adjacent(a1, x, y) implies adjacent(adj0, x, y) by {
                if (x as int) < adj0.len() {
                    assert(a1[x as int] == adj0[x as int]);
                } else {
                    assert(a1[x as int] == Seq::<usize>::empty());
                }
            }
            assert(a1[v1 as int] == adj0[v1 as int]);
        }
        let a = self.s.position(v1);
        let b = self.s.position(v2);
        let cw = self.s.cw_neighbor_of(v1, v2);
        let ccw = self.s.ccw_neighbor_of(v1, v2);
        proof {
            lemma_neighbor_in_range(self.s.positions(), a1, v1, cw);
            lemma_neighbor_in_range(self.s.positions(), a1, v1, ccw);
        }
        let cw_pos = self.s.position(cw);
        let ccw_pos = self.s.position(ccw);
        let removed = self.s.disconnect(v1, v2);
        assert(removed);
        let ghost a2 = self.s.adj();
        let mut illegal: Vec<(usize, usize)> = Vec::new();
        if signed_side(a, b, cw_pos) < -tol {
            self.s.connect(cw, new_handle);
            illegal.push((v1, cw));
            illegal.push((v2, cw));
            assert(illegal@ =~= seq![(v1, cw), (v2, cw)]);
        }
        let ghost ill1 = illegal@;
        if signed_side(a, b, ccw_pos) > tol {
            self.s.connect(ccw, new_handle);
            illegal.push((v1, ccw));
            illegal.push((v2, ccw));
            assert(illegal@ =~= ill1 + seq![(v1, ccw), (v2, ccw)]);
        }
        let ghost a3 = self.s.adj();
        self.s.connect(v1, new_handle);
        self.s.connect(v2, new_handle);
        let ghost a4 = self.s.adj();
        proof {
            assert forall|u: int| 0 <= u < a4.len() implies (#[trigger] a4[u]).len() > 0 by {
                if u == new_handle as int {
                    assert(adjacent(a4, new_handle, v1));
                    assert(a4[u].contains(v1));
                } else if u == v1 as int {
                    assert(adjacent(a4, v1, new_handle));
                    assert(a4[u].contains(new_handle));
                } else if u == v2 as int {
                    assert(adjacent(a4, v2, new_handle));
                    assert(a4[u].contains(new_handle));
                } else {
                    assert(u < adj0.len());
                    let w = adj0[u][0];
                    assert(adj0[u].contains(w));
                    assert(adjacent(adj0, u as usize, w));
                    assert(adjacent(a1, u as usize, w));
                    assert(adjacent(a2, u as usize, w));
                    assert(adjacent(a3, u as usize, w));
                    assert(adjacent(a4, u as usize, w));
                    assert(a4[u].contains(w));
                }
            }
            assert(adjacent(a4, new_handle, v1));
            assert(adjacent(a4, new_handle, v2));
            assert(cw == cw_neighbor(adj0, v1, v2));
            assert(ccw == ccw_neighbor(adj0, v1, v2));
            if side_of(a, b, cw_pos) < -tol {
                assert(adjacent(a3, new_handle, cw));
                assert(adjacent(a4, new_handle, cw));
            }
            if side_of(a, b, ccw_pos) > tol {
                assert(adjacent(a3, new_handle, ccw));
                assert(adjacent(a4, new_handle, ccw));
            }
            assert forall|v: usize, w: usize| #[trigger] adjacent(a4, v, w) && v != new_handle
                && w != new_handle implies adjacent(adj0, v, w) && !(v == v1 && w == v2) by {
                assert(adjacent(a3, v, w));
                assert(adjacent(a2, v, w));
                assert(adjacent(a1, v, w));
                assert(a1[v as int] == adj0[v as int]);
            }
        }
        self.legalize_edges(illegal, new_handle);
        proof {
            let a5 = self.s.adj();
            assert(v1 != new_handle && v2 != new_handle);
            if adjacent(a5, v1, v2) {
                assert(adjacent(a4, v1, v2));
            }
        }
        new_handle
    }

    /// Inserts one of the first three points; returns the new vertex, or
    /// `None` if a vertex already stands at `p`. The third point closes the
    /// first triangle.
    fn initial_insertion(&mut self, p: Point, value: V) -> (r: Option<usize>)
        requires
            old(self).wf(),
            old(self).s.positions().len() < 3,
            in_range(p),
        ensures
            final(self).wf(),
            final(self).tolerance == old(self).tolerance,
            final(self).s.positions() == if old(self).s.positions().contains(p) {
                old(self).s.positions()
            } else {
                old(self).s.positions().push(p)
            },
            r == if old(self).s.positions().contains(p) {
                None::<usize>
            } else {
                Some(old(self).s.positions().len() as usize)
            },
            old(self).s.positions().contains(p) ==> final(self).s.adj() == old(self).s.adj(),
            final(self).s.adj() == initial_adj(old(self).s.positions(), old(self).s.adj(), p),
            final(self).s.data() == if old(self).s.positions().contains(p) {
                old(self).s.data().update(
                    existing_vertex(old(self).s.positions(), old(self).s.adj(), old(self).tolerance as int, p),
                    value,
                )
            } else {
                old(self).s.data().push(value)
            },
    {
        let ghost pos0 = self.s.positions();
        let n = self.s.num_vertices();
        let mut i: usize = 0;
        while i < n
            invariant
                self.wf(),
                *self == *old(self),
                n == pos0.len(),
                n < 3,
                pos0 == self.s.positions(),
                i <= n,
                forall|j: int| 0 <= j < i ==> pos0[j] != p,
            decreases n - i,
        {
            if self.s.position(i) == p {
                proof {
                    assert(pos0[i as int] == p);
                    pos0.index_of_first_ensures(p);
                    let k = pos0.index_of_first(p)->0;
                    assert(pos0[k] == p);
                    assert(k == i as int);
                }
                self.s.update_vertex(i, value);
                return None;
            }
            i = i + 1;
        }
        assert(!pos0.contains(p));
        if n < 2 {
            let h = self.s.insert_vertex(p, value);
            return Some(h);
        }
        let third = self.s.insert_vertex(p, value);
        self.s.connect(0, 1);
        self.s.connect(1, 2);
        self.s.connect(2, 0);
        proof {
            let adj = self.s.adj();
            assert(adjacent(adj, 0, 1));
            assert(adjacent(adj, 1, 2));
            assert(adjacent(adj, 2, 0));
            assert(adj[0].contains(1));
            assert(adj[1].contains(2));
            assert(adj[2].contains(0));
        }
        Some(third)
    }

    /// Inserts `p`, holding `value`, into the triangulation. At a point
    /// already present the vertex keeps its place and takes `value`; any
    /// other point becomes a new vertex, after which the edges around it are
    /// legalized.
    pub fn insert(&mut self, p: Point, value: V) -> (r: Result<(), InsertError>)
        requires
            old(self).wf(),
            in_range(p),
            old(self).s.positions().len() < usize::MAX,
        ensures
            r is Ok ==> {
                &&& final(self).wf()
                &&& final(self).tolerance == old(self).tolerance
                &&& final(self).s.positions() == if insert_finds_existing(
                    old(self).s.positions(),
                    old(self).s.adj(),
                    old(self).tolerance as int,
                    p,
                ) {
                    old(self).s.positions()
                } else {
                    old(self).s.positions().push(p)
                }
                &&& final(self).s.data() == if insert_finds_existing(
                    old(self).s.positions(),
                    old(self).s.adj(),
                    old(self).tolerance as int,
                    p,
                ) {
                    old(self).s.data().update(
                        existing_vertex(old(self).s.positions(), old(self).s.adj(), old(self).tolerance as int, p),
                        value,
                    )
                } else {
                    old(self).s.data().push(value)
                }
            },
            insert_finds_existing(old(self).s.positions(), old(self).s.adj(), old(self).tolerance as int, p)
                ==> r is Ok && final(self).s.adj() == old(self).s.adj(),
            r is Ok ==> final(self).s.positions().to_set() == old(self).s.positions().to_set().insert(p),
            insert_finds_existing(old(self).s.positions(), old(self).s.adj(), old(self).tolerance as int, p)
                ==> (is_delaunay(final(self).s.positions(), final(self).s.adj()) == is_delaunay(
                old(self).s.positions(),
                old(self).s.adj(),
            )),
            r is Ok ==> {
                let h = if insert_finds_existing(
                    old(self).s.positions(),
                    old(self).s.adj(),
                    old(self).tolerance as int,
                    p,
                ) {
                    existing_vertex(old(self).s.positions(), old(self).s.adj(), old(self).tolerance as int, p)
                } else {
                    old(self).s.positions().len() as int
                };
                &&& 0 <= h < final(self).s.positions().len()
                &&& final(self).s.positions()[h] == p
                &&& final(self).s.data()[h] == value
            },
            insert_finds_existing(old(self).s.positions(), old(self).s.adj(), old(self).tolerance as int, p)
                ==> {
                let v = existing_vertex(old(self).s.positions(), old(self).s.adj(), old(self).tolerance as int, p);
                0 <= v < old(self).s.positions().len() && old(self).s.positions()[v] == p
            },
            old(self).tolerance >= 0 && distinct_positions(old(self).s.positions()) ==> (
            insert_finds_existing(old(self).s.positions(), old(self).s.adj(), old(self).tolerance as int, p)
                == old(self).s.positions().contains(p)),
            r is Ok && old(self).tolerance >= 0 && distinct_positions(old(self).s.positions())
                ==> distinct_positions(final(self).s.positions()),
            r is Ok ==> final(self).s.adj() == insert_adj(
                old(self).s.positions(),
                old(self).s.adj(),
                old(self).tolerance as int,
                p,
            ),
            r is Ok && old(self).s.positions().len() >= 3 && !insert_finds_existing(
                old(self).s.positions(),
                old(self).s.adj(),
                old(self).tolerance as int,
                p,
            ) ==> insert_links(
                old(self).s.positions(),
                old(self).s.adj(),
                old(self).tolerance as int,
                p,
                final(self).s.adj(),
            ),
            r is Err ==> *final(self) == *old(self),
            r is Err <==> insert_fails(
                old(self).s.positions(),
                old(self).s.adj(),
                old(self).tolerance as int,
                p,
            ),
    {
        let ghost pos0 = self.s.positions();
        let ghost adj0 = self.s.adj();
        let ghost tol = self.tolerance as int;
        let n = self.num_vertices();
        if n >= 3 {
            let start = self.nearest_vertex(p);
            proof {
                lemma_nearest_unique(pos0, p, start as int);
                lemma_walk_valid(pos0, adj0, tol, start, p, n as nat);
                if tol >= 0 && distinct_positions(pos0) {
                    lemma_finds_existing_iff_contains(pos0, adj0, tol, p);
                }
            }
            let loc = self.get_position_in_triangulation(start, p);
            match loc {
                None => {
                    return Err(InsertError::WalkDidNotFinish);
                },
                Some(PositionInTriangulation::OutsideConvexHull(v1, v2)) => {
                    match self.insert_outside_convex_hull(v1, v2, p, value) {
                        Some(_) => {
                            proof {
                                lemma_insert_position_set(pos0, self.s.positions(), p);
                            }
                            return Ok(());
                        },
                        None => {
                            return Err(InsertError::HullWalkDidNotFinish);
                        },
                    }
                },
                Some(PositionInTriangulation::InTriangle(a, b, c)) => {
                    proof {
                        lemma_neighbor_in_range(pos0, adj0, c, a);
                        lemma_neighbor_in_range(pos0, adj0, c, b);
                    }
                    self.insert_into_triangle(a, b, c, p, value);
                    proof {
                        lemma_insert_position_set(pos0, self.s.positions(), p);
                    }
                    return Ok(());
                },
                Some(PositionInTriangulation::OnEdge(v1, v2)) => {
                    self.insert_on_edge(v1, v2, p, value);
                    proof {
                        lemma_insert_position_set(pos0, self.s.positions(), p);
                    }
                    return Ok(());
                },
                Some(PositionInTriangulation::OnPoint(v)) => {
                    self.s.update_vertex(v, value);
                    assert(pos0[v as int] == p);
                    assert(pos0.contains(p));
                    proof {
                        lemma_insert_position_set(pos0, self.s.positions(), p);
                    }
                    return Ok(());
                },
            }
        } else {
            proof {
                if pos0.contains(p) {
                    pos0.index_of_first_ensures(p);
                }
            }
            self.initial_insertion(p, value);
            proof {
                lemma_insert_position_set(pos0, self.s.positions(), p);
            }
            Ok(())
        }
    }


    /// The vertex at `p` with the lowest handle, if there is one.
    pub fn lookup(&self, p: Point) -> (r: Option<usize>)
        ensures
            match r {
                Some(h) => (h as int) < self.s.positions().len() && self.s.positions()[h as int] == p
                    && forall|j: int| 0 <= j < h ==> self.s.positions()[j] != p,
                None => !self.s.positions().contains(p),
            },
    {
        let n = self.s.num_vertices();
        let mut i: usize = 0;
        while i < n
            invariant
                n == self.s.positions().len(),
                i <= n,
                forall|j: int| 0 <= j < i ==> self.s.positions()[j] != p,
            decreases n - i,
        {
            if self.s.position(i) == p {
                return Some(i);
            }
            i = i + 1;
        }
        None
    }

    /// The vertices inside the rectangle, borders included, in increasing
    /// order.
    pub fn lookup_in_rect(&self, rect: &BoundingRect) -> (r: Vec<usize>)
        ensures
            lists_in_rect(r@, self.s.positions(), *rect),
    {
        let ghost pos = self.s.positions();
        let n = self.s.num_vertices();
        let mut result: Vec<usize> = Vec::new();
        let mut i: usize = 0;
        while i < n
            invariant
                pos == self.s.positions(),
                n == pos.len(),
                i <= n,
                forall|k: int| 0 <= k < result@.len() ==> (#[trigger] result@[k] as int) < i && rect_contains(*rect, pos[result@[k] as int]),
                forall|k: int, j: int| 0 <= k < j < result@.len() ==> #[trigger] result@[k] < #[trigger] result@[j],
                forall|h: int| 0 <= h < i && rect_contains(*rect, #[trigger] pos[h]) ==> result@.contains(h as usize),
            decreases n - i,
        {
            let q = self.s.position(i);
            let ghost old_result = result@;
            if rect.contains_point(q) {
                result.push(i);
                assert(result@[result@.len() - 1] == i);
            }
            proof {
                assert forall|h: int| 0 <= h < i + 1 && rect_contains(*rect, #[trigger] pos[h]) implies result@.contains(h as usize) by {
                    if h == i as int {
                        assert(result@[result@.len() - 1] == i);
                    } else {
                        assert(old_result.contains(h as usize));
                        let k = choose|k: int| 0 <= k < old_result.len() && old_result[k] == h as usize;
                        assert(result@[k] == h as usize);
                    }
                }
            }
            i = i + 1;
        }
        result
    }

    /// The vertices whose squared distance to `center` is at most `radius2`,
    /// in increasing order.
    pub fn lookup_in_circle(&self, center: Point, radius2: i128) -> (r: Vec<usize>)
        requires
            self.wf(),
        ensures
            lists_in_circle(r@, self.s.positions(), center, radius2 as int),
    {
        let ghost pos = self.s.positions();
        let n = self.s.num_vertices();
        let mut result: Vec<usize> = Vec::new();
        let mut i: usize = 0;
        while i < n
            invariant
                self.wf(),
                pos == self.s.positions(),
                n == pos.len(),
                i <= n,
                forall|k: int| 0 <= k < result@.len() ==> (#[trigger] result@[k] as int) < i && dist2(pos[result@[k] as int], center) <= radius2,
                forall|k: int, j: int| 0 <= k < j < result@.len() ==> #[trigger] result@[k] < #[trigger] result@[j],
                forall|h: int| 0 <= h < i && dist2(#[trigger] pos[h], center) <= radius2 ==> result@.contains(h as usize),
            decreases n - i,
        {
            let q = self.s.position(i);
            let ghost old_result = result@;
            if within_radius(q, center, radius2) {
                result.push(i);
                assert(result@[result@.len() - 1] == i);
            }
            proof {
                assert forall|h: int| 0 <= h < i + 1 && dist2(#[trigger] pos[h], center) <= radius2 implies result@.contains(h as usize) by {
                    if h == i as int {
                        assert(result@[result@.len() - 1] == i);
                    } else {
                        assert(old_result.contains(h as usize));
                        let k = choose|k: int| 0 <= k < old_result.len() && old_result[k] == h as usize;
                        assert(result@[k] == h as usize);
                    }
                }
            }
            i = i + 1;
        }
        result
    }

    /// The natural neighbours of `p` found by examining the edges of
    /// `edges`, last first; see `inspect_run`.
    pub fn inspect_flips(&self, edges: Vec<(usize, usize)>, p: Point) -> (r: Option<Vec<usize>>)
        requires
            self.wf(),
            in_range(p),
            forall|i: int| 0 <= i < edges@.len() ==> adjacent(self.s.adj(), (#[trigger] edges@[i]).0, edges@[i].1),
        ensures
            match r {
                Some(v) => inspect_run(
                    self.s.positions(),
                    self.s.adj(),
                    self.tolerance as int,
                    p,
                    edges@,
                    Seq::empty(),
                    inspect_fuel(self.s.positions().len() as int, edges@.len() as int) as nat,
                ) == Some(v@),
                None => inspect_run(
                    self.s.positions(),
                    self.s.adj(),
                    self.tolerance as int,
                    p,
                    edges@,
                    Seq::empty(),
                    inspect_fuel(self.s.positions().len() as int, edges@.len() as int) as nat,
                ) == None::<Seq<usize>>,
            },
            r matches Some(v) ==> forall|i: int| 0 <= i < v@.len() ==> (#[trigger] v@[i] as int) < self.s.positions().len(),
            self.tolerance >= 0 ==> (r matches Some(v) ==> forall|i: int|
                0 <= i < v@.len() ==> on_cavity_boundary(
                    self.s.positions(),
                    self.s.adj(),
                    self.tolerance as int,
                    p,
                    #[trigger] v@[i],
                )),
    {
        let ghost pos = self.s.positions();
        let ghost adj = self.s.adj();
        let ghost tol = self.tolerance as int;
        let n = self.s.num_vertices();
        let t = self.tolerance as i128;
        proof {
            assert((n as int) * (n as int) <= (usize::MAX as int) * (usize::MAX as int)) by (nonlinear_arith)
                requires
                    0 <= n <= usize::MAX,
            ;
            crate::geometry::lemma_square_nonneg(n as int);
        }
        let mut fuel: u128 = (n as u128) * (n as u128) + (edges.len() as u128);
        proof {
            if tol >= 0 {
                law_inspect_result_on_boundary(pos, adj, tol, p, edges@, Seq::empty(), fuel as nat);
            }
        }
        let ghost total = inspect_run(pos, adj, tol, p, edges@, Seq::empty(), fuel as nat);
        let ghost edges0 = edges@;
        let mut stack = edges;
        let mut result: Vec<usize> = Vec::new();
        while stack.len() > 0
            invariant
                self.wf(),
                pos == self.s.positions(),
                adj == self.s.adj(),
                tol == self.tolerance as int,
                t == tol,
                n == pos.len(),
                in_range(p),
                forall|i: int| 0 <= i < stack@.len() ==> (#[trigger] stack@[i]).0 < n,
                forall|i: int| 0 <= i < result@.len() ==> (#[trigger] result@[i] as int) < n,
                total == inspect_run(pos, adj, tol, p, stack@, result@, fuel as nat),
                tol >= 0 ==> (total matches Some(r) ==> forall|i: int|
                    0 <= i < r.len() ==> on_cavity_boundary(pos, adj, tol, p, #[trigger] r[i])),
                total == inspect_run(pos, adj, tol, p, edges0, Seq::empty(), inspect_fuel(n as int, edges0.len() as int) as nat),
                edges0 == edges@,
            decreases fuel,
        {
            if fuel == 0 {
                return None;
            }
            let ghost before = stack@;
            let (hf, ht) = stack.pop().unwrap();
            assert(before.last() == (hf, ht));
            assert(stack@ == before.drop_last());
            if !self.s.is_connected(hf, ht) {
                return None;
            }
            proof {
                lemma_neighbor_in_range(pos, adj, hf, ht);
            }
            let v0 = self.s.position(hf);
            let v1 = self.s.position(ht);
            let h2 = if is_on_left_side(v0, v1, p) {
                self.s.cw_neighbor_of(hf, ht)
            } else {
                self.s.ccw_neighbor_of(hf, ht)
            };
            proof {
                lemma_neighbor_in_range(pos, adj, hf, h2);
            }
            let v2 = self.s.position(h2);
            let ps = signed_side(v0, v1, p);
            let vs = signed_side(v0, v1, v2);
            if (ps < t && vs < t) || (ps > -t && vs > -t) {
                result.push(hf);
            } else {
                let swap = is_ordered_ccw(v0, v1, v2);
                let h0 = if swap { ht } else { hf };
                let h1 = if swap { hf } else { ht };
                let a = if swap { v1 } else { v0 };
                let b = if swap { v0 } else { v1 };
                if contained_in_circumference(a, b, v2, p) {
                    stack.push((h2, h1));
                    stack.push((h0, h2));
                } else {
                    result.push(hf);
                }
            }
            fuel = fuel - 1;
        }
        assert(total == Some(result@));
        Some(result)
    }

    /// The natural neighbours of `p`, which lies in the triangle `(v0, v1, v2)`.
    pub fn get_natural_neighbors(&self, v0: usize, v1: usize, v2: usize, p: Point) -> (r: Option<Vec<usize>>)
        requires
            self.wf(),
            in_range(p),
            adjacent(self.s.adj(), v2, v0),
            adjacent(self.s.adj(), v1, v2),
            adjacent(self.s.adj(), v0, v1),
        ensures
            match r {
                Some(v) => inspect_run(
                    self.s.positions(),
                    self.s.adj(),
                    self.tolerance as int,
                    p,
                    seq![(v2, v0), (v1, v2), (v0, v1)],
                    Seq::empty(),
                    inspect_fuel(self.s.positions().len() as int, 3) as nat,
                ) == Some(v@),
                None => inspect_run(
                    self.s.positions(),
                    self.s.adj(),
                    self.tolerance as int,
                    p,
                    seq![(v2, v0), (v1, v2), (v0, v1)],
                    Seq::empty(),
                    inspect_fuel(self.s.positions().len() as int, 3) as nat,
                ) == None::<Seq<usize>>,
            },
            r matches Some(v) ==> forall|i: int| 0 <= i < v@.len() ==> (#[trigger] v@[i] as int) < self.s.positions().len(),
            self.tolerance >= 0 ==> (r matches Some(v) ==> forall|i: int|
                0 <= i < v@.len() ==> on_cavity_boundary(
                    self.s.positions(),
                    self.s.adj(),
                    self.tolerance as int,
                    p,
                    #[trigger] v@[i],
                )),
    {
        let edges = vec![(v2, v0), (v1, v2), (v0, v1)];
        assert(edges@ =~= seq![(v2, v0), (v1, v2), (v0, v1)]);
        self.inspect_flips(edges, p)
    }

}

impl<V> Default for DelaunayTriangulation<V> {
    /// An empty triangulation with zero tolerance.
    fn default() -> (d: Self)
        ensures
            d.wf(),
            d.s.positions() == Seq::<Point>::empty(),
            d.s.adj() == Seq::<Seq<usize>>::empty(),
            d.s.data() == Seq::<V>::empty(),
            d.tolerance == 0,
    {
        DelaunayTriangulation::new()
    }
}

} // verus!
