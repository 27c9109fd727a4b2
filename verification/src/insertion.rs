//! What inserting a point does to the neighbour lists, step by step.
use vstd::prelude::*;
use crate::geometry::{dist2, in_range, incircle_det, inside_circle, opposite_sides, side_of, Point};
use crate::hull::hull_edges;
use crate::subdivision::{
    add_edge, adjacency_wf, adjacent, ccw_neighbor, cw_neighbor, flippable, lemma_add_edge_wf,
    lemma_cw_neighbor_adjacent, lemma_neighbor_in_range, lemma_remove_edge_wf, remove_edge,
};
use crate::walk::{lemma_walk_valid, walk, PositionInTriangulation};

verus! {

/// `r` is the first vertex among those nearest to `p`.
pub open spec fn is_first_nearest(pos: Seq<Point>, p: Point, r: int) -> bool {
    &&& 0 <= r < pos.len()
    &&& forall|j: int| 0 <= j < pos.len() ==> dist2(pos[r], p) <= #[trigger] dist2(pos[j], p)
    &&& forall|j: int| 0 <= j < r ==> dist2(pos[r], p) < #[trigger] dist2(pos[j], p)
}

/// The first vertex nearest to `p`.
pub open spec fn nearest(pos: Seq<Point>, p: Point) -> int {
    choose|r: int| is_first_nearest(pos, p, r)
}

/// There is only one first nearest vertex.
pub proof fn lemma_nearest_unique(pos: Seq<Point>, p: Point, r: int)
    requires
        is_first_nearest(pos, p, r),
    ensures
        nearest(pos, p) == r,
{
    let q = nearest(pos, p);
    assert(is_first_nearest(pos, p, q));
    if q < r {
        assert(dist2(pos[r], p) < dist2(pos[q], p));
        assert(dist2(pos[q], p) <= dist2(pos[r], p));
    } else if r < q {
        assert(dist2(pos[q], p) < dist2(pos[r], p));
        assert(dist2(pos[r], p) <= dist2(pos[q], p));
    }
}

/// Inserting `p` fails: with at least three vertices, the walk from the
/// nearest vertex does not end, or it ends outside the convex hull and the
/// walk along the hull does not end.
pub open spec fn insert_fails(pos: Seq<Point>, adj: Seq<Seq<usize>>, tol: int, p: Point) -> bool {
    &&& pos.len() >= 3
    &&& match walk(pos, adj, tol, nearest(pos, p) as usize, p, pos.len()) {
        None => true,
        Some(PositionInTriangulation::OutsideConvexHull(a, b)) => hull_edges(
            pos,
            adj,
            tol,
            p,
            a,
            b,
            pos.len() * pos.len(),
        ) == None::<Seq<usize>>,
        Some(_) => false,
    }
}

/// Every vertex other than `v` has a neighbour.
pub open spec fn nonempty_except(adj: Seq<Seq<usize>>, v: int) -> bool {
    forall|u: int| 0 <= u < adj.len() && u != v ==> (#[trigger] adj[u]).len() > 0
}

/// Edges that are kept keep their ends' lists nonempty.
pub proof fn lemma_keeps_neighbors(adj: Seq<Seq<usize>>, adj2: Seq<Seq<usize>>, v: int)
    requires
        adj2.len() >= adj.len(),
        adj.len() <= usize::MAX,
        forall|a: usize, b: usize| #[trigger] adjacent(adj, a, b) ==> adjacent(adj2, a, b),
        nonempty_except(adj, v),
    ensures
        forall|u: int| 0 <= u < adj.len() && u != v ==> (#[trigger] adj2[u]).len() > 0,
{
    assert forall|u: int| 0 <= u < adj.len() && u != v implies (#[trigger] adj2[u]).len() > 0 by {
        let w = adj[u][0];
        assert(adj[u].contains(w));
        assert(adjacent(adj, u as usize, w));
        assert(adjacent(adj2, u as usize, w));
    }
}

/// Legalization keeps the structure of the neighbour lists and creates no
/// edge other than at the new vertex.
pub proof fn lemma_legalize_frame(pos: Seq<Point>, adj: Seq<Seq<usize>>, tol: int, new: usize, stack: Seq<(usize, usize)>, fuel: nat)
    requires
        adjacency_wf(pos, adj),
        tol >= 0,
    ensures
        adjacency_wf(pos, legalize_spec(pos, adj, tol, new, stack, fuel)),
        no_new_edges_except(adj, legalize_spec(pos, adj, tol, new, stack, fuel), new),
    decreases fuel,
{
    if stack.len() > 0 && fuel > 0 {
        lemma_legalize_step_flips(pos, adj, tol, new, stack);
        let (hf, ht) = stack.last();
        let (adj2, stack2) = legalize_step(pos, adj, tol, new, stack);
        if edge_illegal(pos, adj, tol, hf, ht, new) {
            let c = cw_neighbor(adj, hf, ht);
            let d = ccw_neighbor(adj, hf, ht);
            lemma_remove_edge_wf(pos, adj, hf, ht);
            let r = remove_edge(adj, hf, ht);
            lemma_neighbor_in_range(pos, adj, ht, c);
            lemma_neighbor_in_range(pos, adj, ht, d);
            assert(!adjacent(r, c, d));
            lemma_add_edge_wf(pos, r, c, d);
            assert(adj2 == add_edge(pos, r, c, d));
            assert forall|v: usize, w: usize| #[trigger] adjacent(adj2, v, w) && v != new && w != new
                implies adjacent(adj, v, w) by {
                assert(adjacent(r, v, w));
            }
        } else {
            assert(adj2 == adj);
        }
        lemma_legalize_frame(pos, adj2, tol, new, stack2, (fuel - 1) as nat);
        let fin = legalize_spec(pos, adj2, tol, new, stack2, (fuel - 1) as nat);
        assert forall|v: usize, w: usize| #[trigger] adjacent(fin, v, w) && v != new && w != new
            implies adjacent(adj, v, w) by {
            assert(adjacent(adj2, v, w));
        }
    }
}

/// The two edges of the triangle `(u, w, x)` beyond a flipped edge `u - w`
/// that are examined next, each ending at `x`: the one from the end that
/// comes second counterclockwise around the triangle is examined first.
pub open spec fn legalize_far_edges(pos: Seq<Point>, u: usize, w: usize, x: usize) -> Seq<(usize, usize)> {
    if side_of(pos[u as int], pos[w as int], pos[x as int]) >= 0 {
        seq![(w, x), (u, x)]
    } else {
        seq![(u, x), (w, x)]
    }
}

/// How legalization goes on from the edge `u - w` on top of the stack, for
/// a nonnegative tolerance: an illegal edge is flipped, and the two other
/// edges of the triangle that was beyond it are examined next; any other
/// pair is dropped and leaves the neighbour lists as they are.
pub proof fn law_legalize_step(pos: Seq<Point>, adj: Seq<Seq<usize>>, tol: int, new: usize, stack: Seq<(usize, usize)>, fuel: nat)
    requires
        tol >= 0,
        stack.len() > 0,
        fuel > 0,
    ensures
        edge_illegal(pos, adj, tol, stack.last().0, stack.last().1, new) ==> legalize_spec(pos, adj, tol, new, stack, fuel)
            == legalize_spec(
            pos,
            flip_spec(pos, adj, stack.last().0, stack.last().1),
            tol,
            new,
            stack.drop_last() + legalize_far_edges(
                pos,
                stack.last().0,
                stack.last().1,
                far_vertex(pos, adj, stack.last().0, stack.last().1, pos[new as int]),
            ),
            (fuel - 1) as nat,
        ),
        !edge_illegal(pos, adj, tol, stack.last().0, stack.last().1, new) ==> legalize_spec(pos, adj, tol, new, stack, fuel)
            == legalize_spec(pos, adj, tol, new, stack.drop_last(), (fuel - 1) as nat),
{
    lemma_legalize_step_flips(pos, adj, tol, new, stack);
    let (hf, ht) = stack.last();
    let tail = stack.drop_last();
    if edge_illegal(pos, adj, tol, hf, ht, new) {
        let x = far_vertex(pos, adj, hf, ht, pos[new as int]);
        let swap = side_of(pos[hf as int], pos[ht as int], pos[x as int]) >= 0;
        let e0 = if swap { ht } else { hf };
        let e1 = if swap { hf } else { ht };
        crate::geometry::law_incircle_symmetry(pos[hf as int], pos[ht as int], pos[x as int], pos[new as int]);
        assert(legalize_step(pos, adj, tol, new, stack).1 == tail.push((e0, x)).push((e1, x)));
        assert(tail.push((e0, x)).push((e1, x)) =~= tail + legalize_far_edges(pos, hf, ht, x));
    }
}

/// Legalization removes an illegal edge on top of the stack for good: it is
/// not an edge of the result.
pub proof fn law_legalize_removes_illegal_edge(pos: Seq<Point>, adj: Seq<Seq<usize>>, tol: int, new: usize, stack: Seq<(usize, usize)>, fuel: nat)
    requires
        adjacency_wf(pos, adj),
        tol >= 0,
        stack.len() > 0,
        fuel > 0,
        stack.last().0 != new,
        stack.last().1 != new,
        edge_illegal(pos, adj, tol, stack.last().0, stack.last().1, new),
    ensures
        !adjacent(legalize_spec(pos, adj, tol, new, stack, fuel), stack.last().0, stack.last().1),
{
    let (hf, ht) = stack.last();
    lemma_legalize_step_flips(pos, adj, tol, new, stack);
    let (adj2, stack2) = legalize_step(pos, adj, tol, new, stack);
    let c = cw_neighbor(adj, hf, ht);
    let d = ccw_neighbor(adj, hf, ht);
    lemma_remove_edge_wf(pos, adj, hf, ht);
    let r = remove_edge(adj, hf, ht);
    lemma_neighbor_in_range(pos, adj, ht, c);
    lemma_neighbor_in_range(pos, adj, ht, d);
    assert(!adjacent(r, c, d));
    lemma_add_edge_wf(pos, r, c, d);
    assert(adj2 == add_edge(pos, r, c, d));
    assert(c == new || d == new);
    assert(!adjacent(adj2, hf, ht));
    lemma_legalize_frame(pos, adj2, tol, new, stack2, (fuel - 1) as nat);
}

/// The neighbour lists after `connect(a, b)`: unchanged if the two are
/// connected already.
pub open spec fn connect_spec(pos: Seq<Point>, adj: Seq<Seq<usize>>, a: usize, b: usize) -> Seq<Seq<usize>> {
    if adjacent(adj, a, b) {
        adj
    } else {
        add_edge(pos, adj, a, b)
    }
}

/// The neighbour lists after flipping the edge `from - to`.
pub open spec fn flip_spec(pos: Seq<Point>, adj: Seq<Seq<usize>>, from: usize, to: usize) -> Seq<Seq<usize>> {
    add_edge(pos, remove_edge(adj, from, to), cw_neighbor(adj, from, to), ccw_neighbor(adj, from, to))
}

/// One step of legalizing the edges on `stack` around the vertex `new`:
/// the last edge is taken off; it is flipped, and the two far edges pushed,
/// if the vertex across it lies inside the circumcircle of `new` and the
/// edge, the edge's ends are on different sides (beyond the tolerance), and
/// the edge and `new` form a flippable quadrilateral.
pub open spec fn legalize_step(pos: Seq<Point>, adj: Seq<Seq<usize>>, tol: int, new: usize, stack: Seq<(usize, usize)>) -> (Seq<Seq<usize>>, Seq<(usize, usize)>) {
    let (hf, ht) = stack.last();
    let rest = stack.drop_last();
    if !adjacent(adj, hf, ht) {
        (adj, rest)
    } else {
        let position = pos[new as int];
        let v0 = pos[hf as int];
        let v1 = pos[ht as int];
        let left = side_of(v0, v1, position) > 0;
        let cw = cw_neighbor(adj, hf, ht);
        let ccw = ccw_neighbor(adj, hf, ht);
        let h2 = if left { cw } else { ccw };
        let other = if left { ccw } else { cw };
        let v2 = pos[h2 as int];
        let ps = side_of(v0, v1, position);
        let vs = side_of(v0, v1, v2);
        if (ps < tol && vs < tol) || (ps > -tol && vs > -tol) {
            (adj, rest)
        } else {
            let swap = side_of(v0, v1, v2) >= 0;
            let h0 = if swap { ht } else { hf };
            let h1 = if swap { hf } else { ht };
            let a = if swap { v1 } else { v0 };
            let b = if swap { v0 } else { v1 };
            if incircle_det(a, b, v2, position) < 0 && other == new && h2 != new && flippable(adj, hf, ht) {
                (flip_spec(pos, adj, hf, ht), rest.push((h0, h2)).push((h1, h2)))
            } else {
                (adj, rest)
            }
        }
    }
}

/// The neighbour of `u` next to `w` across the line `u - w` from `q`: the
/// clockwise one when `q` lies left of `u -> w`, the counterclockwise one
/// otherwise.
pub open spec fn far_vertex(pos: Seq<Point>, adj: Seq<Seq<usize>>, u: usize, w: usize, q: Point) -> usize {
    if side_of(pos[u as int], pos[w as int], q) > 0 {
        cw_neighbor(adj, u, w)
    } else {
        ccw_neighbor(adj, u, w)
    }
}

/// The neighbour of `u` next to `w` on the side of `q`.
pub open spec fn near_vertex(pos: Seq<Point>, adj: Seq<Seq<usize>>, u: usize, w: usize, q: Point) -> usize {
    if side_of(pos[u as int], pos[w as int], q) > 0 {
        ccw_neighbor(adj, u, w)
    } else {
        cw_neighbor(adj, u, w)
    }
}

/// The edge `u - w` is illegal for the vertex `h`: it is an edge whose two
/// triangles `(u, w, h)` and `(u, w, x)` form a quadrilateral that can be
/// flipped, `h` and `x` lie on opposite sides of it, at least the tolerance
/// off its line, and `h` lies strictly inside the circle through `u`, `w`
/// and `x`.
pub open spec fn edge_illegal(pos: Seq<Point>, adj: Seq<Seq<usize>>, tol: int, u: usize, w: usize, h: usize) -> bool {
    let q = pos[h as int];
    let x = far_vertex(pos, adj, u, w, q);
    &&& adjacent(adj, u, w)
    &&& near_vertex(pos, adj, u, w, q) == h
    &&& x != h
    &&& flippable(adj, u, w)
    &&& opposite_sides(side_of(pos[u as int], pos[w as int], q), side_of(pos[u as int], pos[w as int], pos[x as int]), tol)
    &&& inside_circle(pos[u as int], pos[w as int], pos[x as int], q)
}

/// A legalization step flips the edge on top of the stack exactly when that
/// edge is illegal for the new vertex.
pub proof fn lemma_legalize_step_flips(pos: Seq<Point>, adj: Seq<Seq<usize>>, tol: int, new: usize, stack: Seq<(usize, usize)>)
    requires
        tol >= 0,
        stack.len() > 0,
    ensures
        legalize_step(pos, adj, tol, new, stack).0 == if edge_illegal(pos, adj, tol, stack.last().0, stack.last().1, new) {
            flip_spec(pos, adj, stack.last().0, stack.last().1)
        } else {
            adj
        },
        !edge_illegal(pos, adj, tol, stack.last().0, stack.last().1, new) ==> legalize_step(
            pos,
            adj,
            tol,
            new,
            stack,
        ).1 == stack.drop_last(),
{
    let (hf, ht) = stack.last();
    if adjacent(adj, hf, ht) {
        let position = pos[new as int];
        let v0 = pos[hf as int];
        let v1 = pos[ht as int];
        let left = side_of(v0, v1, position) > 0;
        let h2 = if left { cw_neighbor(adj, hf, ht) } else { ccw_neighbor(adj, hf, ht) };
        let v2 = pos[h2 as int];
        crate::geometry::law_incircle_symmetry(v0, v1, v2, position);
    }
}

/// The neighbour lists after at most `fuel` legalization steps.
pub open spec fn legalize_spec(pos: Seq<Point>, adj: Seq<Seq<usize>>, tol: int, new: usize, stack: Seq<(usize, usize)>, fuel: nat) -> Seq<Seq<usize>>
    decreases fuel,
{
    if stack.len() == 0 || fuel == 0 {
        adj
    } else {
        let (adj2, stack2) = legalize_step(pos, adj, tol, new, stack);
        legalize_spec(pos, adj2, tol, new, stack2, (fuel - 1) as nat)
    }
}

/// Enough legalization steps for `stack` in a triangulation of `n` vertices:
/// every flip gives the new vertex a neighbour and pushes one more edge.
pub open spec fn legalize_fuel(stack: Seq<(usize, usize)>, n: int) -> nat {
    (stack.len() + 2 * n) as nat
}

/// The neighbour lists after connecting the first `k` vertices of `hs` to
/// `new`, in order.
pub open spec fn connect_all(pos: Seq<Point>, adj: Seq<Seq<usize>>, hs: Seq<usize>, new: usize, k: int) -> Seq<Seq<usize>>
    decreases k,
{
    if k <= 0 {
        adj
    } else {
        connect_spec(pos, connect_all(pos, adj, hs, new, k - 1), hs[k - 1], new)
    }
}

/// The pairs of consecutive entries of `hs`.
pub open spec fn windows(hs: Seq<usize>) -> Seq<(usize, usize)> {
    Seq::new(if hs.len() > 0 { (hs.len() - 1) as nat } else { 0 }, |i: int| (hs[i], hs[i + 1]))
}

/// The neighbour lists after inserting `p` outside the convex hull, where it
/// sees the hull vertices `hs`.
pub open spec fn insert_outside_adj(pos: Seq<Point>, adj: Seq<Seq<usize>>, tol: int, p: Point, hs: Seq<usize>) -> Seq<Seq<usize>> {
    let pos2 = pos.push(p);
    let new = pos.len() as usize;
    let adj1 = connect_all(pos2, adj.push(Seq::<usize>::empty()), hs, new, hs.len() as int);
    legalize_spec(pos2, adj1, tol, new, windows(hs), legalize_fuel(windows(hs), pos2.len() as int))
}

/// A new vertex at `p` without neighbours keeps the structure and the edges.
pub proof fn lemma_push_vertex_wf(pos: Seq<Point>, adj: Seq<Seq<usize>>, p: Point)
    requires
        adjacency_wf(pos, adj),
        in_range(p),
        pos.len() < usize::MAX,
    ensures
        adjacency_wf(pos.push(p), adj.push(Seq::<usize>::empty())),
        forall|v: usize, w: usize| #[trigger]
            adjacent(adj.push(Seq::<usize>::empty()), v, w) <==> adjacent(adj, v, w),
{
    let pos2 = pos.push(p);
    let adj2 = adj.push(Seq::<usize>::empty());
    assert forall|v: usize, w: usize| #[trigger] adjacent(adj2, v, w) <==> adjacent(adj, v, w) by {
        if (v as int) < adj.len() {
            assert(adj2[v as int] == adj[v as int]);
        }
    }
    assert forall|v: int, i: int| 0 <= v < adj2.len() && 0 <= i < adj2[v].len() implies (
    #[trigger] adj2[v][i] as int) < adj2.len() && adj2[v][i] as int != v by {
        assert(adj2[v] == adj[v]);
    }
    assert forall|v: int| 0 <= v < adj2.len() implies (#[trigger] adj2[v]).no_duplicates() by {
        if v < adj.len() {
            assert(adj2[v] == adj[v]);
        }
    }
    assert forall|v: int| 0 <= v < pos2.len() implies in_range(#[trigger] pos2[v]) by {
        if v < pos.len() {
            assert(pos2[v] == pos[v]);
        }
    }
}

/// Connecting two distinct vertices keeps the structure and adds exactly
/// their edge.
pub proof fn lemma_connect_wf(pos: Seq<Point>, adj: Seq<Seq<usize>>, a: usize, b: usize)
    requires
        adjacency_wf(pos, adj),
        (a as int) < adj.len(),
        (b as int) < adj.len(),
        a != b,
    ensures
        adjacency_wf(pos, connect_spec(pos, adj, a, b)),
        forall|v: usize, w: usize| #[trigger]
            adjacent(connect_spec(pos, adj, a, b), v, w) <==> (adjacent(adj, v, w) || (v == a && w == b)
                || (v == b && w == a)),
{
    if !adjacent(adj, a, b) {
        lemma_add_edge_wf(pos, adj, a, b);
    } else {
        assert(adjacent(adj, b, a));
    }
}

/// The neighbour lists after splitting the triangle `(a, b, c)` at `p`:
/// the new vertex is connected to its three corners, before any edge is
/// legalized.
pub open spec fn split_triangle_adj(pos: Seq<Point>, adj: Seq<Seq<usize>>, p: Point, a: usize, b: usize, c: usize) -> Seq<Seq<usize>> {
    let pos2 = pos.push(p);
    let new = pos.len() as usize;
    connect_spec(
        pos2,
        connect_spec(pos2, connect_spec(pos2, adj.push(Seq::<usize>::empty()), a, new), b, new),
        c,
        new,
    )
}

/// Inserting `p` into the triangle `(a, b, c)` legalizes the edges of that
/// triangle, whatever the tolerance: taken in the order `c - a`, `b - c`,
/// `a - b`, the first of them that is illegal for the new vertex once it is
/// connected to the three corners is not an edge of the result.
pub proof fn law_triangle_insertion_legalizes(pos: Seq<Point>, adj: Seq<Seq<usize>>, tol: int, p: Point, a: usize, b: usize, c: usize)
    requires
        adjacency_wf(pos, adj),
        in_range(p),
        pos.len() < usize::MAX,
        (a as int) < pos.len(),
        (b as int) < pos.len(),
        (c as int) < pos.len(),
        tol >= 0,
    ensures
        edge_illegal(pos.push(p), split_triangle_adj(pos, adj, p, a, b, c), tol, c, a, pos.len() as usize)
            ==> !adjacent(insert_triangle_adj(pos, adj, tol, p, a, b, c), c, a),
        !edge_illegal(pos.push(p), split_triangle_adj(pos, adj, p, a, b, c), tol, c, a, pos.len() as usize)
            && edge_illegal(pos.push(p), split_triangle_adj(pos, adj, p, a, b, c), tol, b, c, pos.len() as usize)
            ==> !adjacent(insert_triangle_adj(pos, adj, tol, p, a, b, c), b, c),
        !edge_illegal(pos.push(p), split_triangle_adj(pos, adj, p, a, b, c), tol, c, a, pos.len() as usize)
            && !edge_illegal(pos.push(p), split_triangle_adj(pos, adj, p, a, b, c), tol, b, c, pos.len() as usize)
            && edge_illegal(pos.push(p), split_triangle_adj(pos, adj, p, a, b, c), tol, a, b, pos.len() as usize)
            ==> !adjacent(insert_triangle_adj(pos, adj, tol, p, a, b, c), a, b),
{
    let pos2 = pos.push(p);
    let new = pos.len() as usize;
    let adj0 = adj.push(Seq::<usize>::empty());
    lemma_push_vertex_wf(pos, adj, p);
    let adj_a = connect_spec(pos2, adj0, a, new);
    lemma_connect_wf(pos2, adj0, a, new);
    let adj_b = connect_spec(pos2, adj_a, b, new);
    lemma_connect_wf(pos2, adj_a, b, new);
    lemma_connect_wf(pos2, adj_b, c, new);
    let adj1 = split_triangle_adj(pos, adj, p, a, b, c);
    assert(adj1 == connect_spec(pos2, adj_b, c, new));
    let first = seq![(a, b), (b, c), (c, a)];
    let fuel = legalize_fuel(first, pos2.len() as int);
    assert(insert_triangle_adj(pos, adj, tol, p, a, b, c) == legalize_spec(pos2, adj1, tol, new, first, fuel));
    assert(first.last() == (c, a));
    if edge_illegal(pos2, adj1, tol, c, a, new) {
        law_legalize_removes_illegal_edge(pos2, adj1, tol, new, first, fuel);
    } else {
        lemma_legalize_step_flips(pos2, adj1, tol, new, first);
        let ill2 = first.drop_last();
        assert(ill2 == seq![(a, b), (b, c)]);
        assert(legalize_spec(pos2, adj1, tol, new, first, fuel) == legalize_spec(pos2, adj1, tol, new, ill2, (fuel - 1) as nat));
        assert(ill2.last() == (b, c));
        if edge_illegal(pos2, adj1, tol, b, c, new) {
            law_legalize_removes_illegal_edge(pos2, adj1, tol, new, ill2, (fuel - 1) as nat);
        } else {
            lemma_legalize_step_flips(pos2, adj1, tol, new, ill2);
            let ill3 = ill2.drop_last();
            assert(ill3 == seq![(a, b)]);
            assert(legalize_spec(pos2, adj1, tol, new, ill2, (fuel - 1) as nat) == legalize_spec(pos2, adj1, tol, new, ill3, (fuel - 2) as nat));
            assert(ill3.last() == (a, b));
            if edge_illegal(pos2, adj1, tol, a, b, new) {
                law_legalize_removes_illegal_edge(pos2, adj1, tol, new, ill3, (fuel - 2) as nat);
            }
        }
    }
}

/// The neighbour lists after inserting `p` into the triangle `(a, b, c)`.
pub open spec fn insert_triangle_adj(pos: Seq<Point>, adj: Seq<Seq<usize>>, tol: int, p: Point, a: usize, b: usize, c: usize) -> Seq<Seq<usize>> {
    let pos2 = pos.push(p);
    let new = pos.len() as usize;
    let adj1 = connect_spec(
        pos2,
        connect_spec(pos2, connect_spec(pos2, adj.push(Seq::<usize>::empty()), a, new), b, new),
        c,
        new,
    );
    let ill = seq![(a, b), (b, c), (c, a)];
    legalize_spec(pos2, adj1, tol, new, ill, legalize_fuel(ill, pos2.len() as int))
}

/// The neighbour lists after inserting `p` on the edge `v1 - v2`: the edge
/// is removed, `p` is connected to each vertex across it that lies on the
/// proper side (beyond the tolerance) and to both ends, and the far edges are
/// legalized.
pub open spec fn insert_edge_adj(pos: Seq<Point>, adj: Seq<Seq<usize>>, tol: int, p: Point, v1: usize, v2: usize) -> Seq<Seq<usize>> {
    let pos2 = pos.push(p);
    let new = pos.len() as usize;
    let adj1 = adj.push(Seq::<usize>::empty());
    let cw = cw_neighbor(adj1, v1, v2);
    let ccw = ccw_neighbor(adj1, v1, v2);
    let a = pos[v1 as int];
    let b = pos[v2 as int];
    let adj2 = remove_edge(adj1, v1, v2);
    let c1 = side_of(a, b, pos[cw as int]) < -tol;
    let adj3 = if c1 { connect_spec(pos2, adj2, cw, new) } else { adj2 };
    let ill1 = if c1 { seq![(v1, cw), (v2, cw)] } else { Seq::<(usize, usize)>::empty() };
    let c2 = side_of(a, b, pos[ccw as int]) > tol;
    let adj4 = if c2 { connect_spec(pos2, adj3, ccw, new) } else { adj3 };
    let ill2 = if c2 { ill1 + seq![(v1, ccw), (v2, ccw)] } else { ill1 };
    let adj5 = connect_spec(pos2, connect_spec(pos2, adj4, v1, new), v2, new);
    legalize_spec(pos2, adj5, tol, new, ill2, legalize_fuel(ill2, pos2.len() as int))
}

/// The neighbour lists after splitting the edge `v1 - v2` at `p`, before
/// any edge is legalized: the edge is removed, and the new vertex is joined
/// to each vertex across it that lies beyond the tolerance on its side, and
/// to both ends.
pub open spec fn split_edge_adj(pos: Seq<Point>, adj: Seq<Seq<usize>>, tol: int, p: Point, v1: usize, v2: usize) -> Seq<Seq<usize>> {
    let pos2 = pos.push(p);
    let new = pos.len() as usize;
    let base = adj.push(Seq::<usize>::empty());
    let right = cw_neighbor(base, v1, v2);
    let left = ccw_neighbor(base, v1, v2);
    let removed = remove_edge(base, v1, v2);
    let with_right = if side_of(pos[v1 as int], pos[v2 as int], pos[right as int]) < -tol {
        connect_spec(pos2, removed, right, new)
    } else {
        removed
    };
    let with_left = if side_of(pos[v1 as int], pos[v2 as int], pos[left as int]) > tol {
        connect_spec(pos2, with_right, left, new)
    } else {
        with_right
    };
    connect_spec(pos2, connect_spec(pos2, with_left, v1, new), v2, new)
}

/// Inserting `p` on the edge `v1 - v2` legalizes the far edges of the split
/// triangles: the edge from `v2` to the vertex across on the left (when
/// there is one beyond the tolerance), or else to the vertex across on the
/// right, is examined first, and if it is illegal for the new vertex it is
/// not an edge of the result.
pub proof fn law_edge_insertion_legalizes(pos: Seq<Point>, adj: Seq<Seq<usize>>, tol: int, p: Point, v1: usize, v2: usize)
    requires
        adjacency_wf(pos, adj),
        in_range(p),
        pos.len() < usize::MAX,
        adjacent(adj, v1, v2),
        tol >= 0,
    ensures
        side_of(pos[v1 as int], pos[v2 as int], pos[ccw_neighbor(adj, v1, v2) as int]) > tol && edge_illegal(
            pos.push(p),
            split_edge_adj(pos, adj, tol, p, v1, v2),
            tol,
            v2,
            ccw_neighbor(adj, v1, v2),
            pos.len() as usize,
        ) ==> !adjacent(insert_edge_adj(pos, adj, tol, p, v1, v2), v2, ccw_neighbor(adj, v1, v2)),
        !(side_of(pos[v1 as int], pos[v2 as int], pos[ccw_neighbor(adj, v1, v2) as int]) > tol)
            && side_of(pos[v1 as int], pos[v2 as int], pos[cw_neighbor(adj, v1, v2) as int]) < -tol
            && edge_illegal(
            pos.push(p),
            split_edge_adj(pos, adj, tol, p, v1, v2),
            tol,
            v2,
            cw_neighbor(adj, v1, v2),
            pos.len() as usize,
        ) ==> !adjacent(insert_edge_adj(pos, adj, tol, p, v1, v2), v2, cw_neighbor(adj, v1, v2)),
{
    let pos2 = pos.push(p);
    let new = pos.len() as usize;
    let base = adj.push(Seq::<usize>::empty());
    lemma_push_vertex_wf(pos, adj, p);
    assert(base[v1 as int] == adj[v1 as int]);
    let right = cw_neighbor(adj, v1, v2);
    let left = ccw_neighbor(adj, v1, v2);
    assert(right == cw_neighbor(base, v1, v2));
    assert(left == ccw_neighbor(base, v1, v2));
    lemma_neighbor_in_range(pos, adj, v1, v2);
    lemma_cw_neighbor_adjacent(pos, adj, v1, v2);
    lemma_neighbor_in_range(pos, adj, v1, right);
    let l = adj[v1 as int];
    let k = l.index_of(v2);
    assert(l[k] == v2);
    if k + 1 == l.len() {
        assert(l.contains(l[0]));
    } else {
        assert(l.contains(l[k + 1]));
    }
    lemma_neighbor_in_range(pos, adj, v1, left);
    lemma_remove_edge_wf(pos2, base, v1, v2);
    let removed = remove_edge(base, v1, v2);
    let c1 = side_of(pos[v1 as int], pos[v2 as int], pos[right as int]) < -tol;
    let with_right = if c1 { connect_spec(pos2, removed, right, new) } else { removed };
    if c1 {
        lemma_connect_wf(pos2, removed, right, new);
    }
    let c2 = side_of(pos[v1 as int], pos[v2 as int], pos[left as int]) > tol;
    let with_left = if c2 { connect_spec(pos2, with_right, left, new) } else { with_right };
    if c2 {
        lemma_connect_wf(pos2, with_right, left, new);
    }
    lemma_connect_wf(pos2, with_left, v1, new);
    lemma_connect_wf(pos2, connect_spec(pos2, with_left, v1, new), v2, new);
    let split = split_edge_adj(pos, adj, tol, p, v1, v2);
    let first = if c1 { seq![(v1, right), (v2, right)] } else { Seq::<(usize, usize)>::empty() };
    let examined = if c2 { first + seq![(v1, left), (v2, left)] } else { first };
    let fuel = legalize_fuel(examined, pos2.len() as int);
    assert(insert_edge_adj(pos, adj, tol, p, v1, v2) == legalize_spec(pos2, split, tol, new, examined, fuel));
    if c2 {
        assert(examined.last() == (v2, left));
        if edge_illegal(pos2, split, tol, v2, left, new) {
            law_legalize_removes_illegal_edge(pos2, split, tol, new, examined, fuel);
        }
    } else if c1 {
        assert(examined.last() == (v2, right));
        if edge_illegal(pos2, split, tol, v2, right, new) {
            law_legalize_removes_illegal_edge(pos2, split, tol, new, examined, fuel);
        }
    }
}

/// `connect_all` keeps the structure, and joins `new` to the first `k`
/// vertices of `hs`, and to no other vertex.
proof fn lemma_connect_all_wf(pos: Seq<Point>, adj: Seq<Seq<usize>>, hs: Seq<usize>, new: usize, k: int)
    requires
        adjacency_wf(pos, adj),
        (new as int) < adj.len(),
        0 <= k <= hs.len(),
        forall|i: int| 0 <= i < hs.len() ==> (#[trigger] hs[i] as int) < adj.len() && hs[i] != new,
    ensures
        adjacency_wf(pos, connect_all(pos, adj, hs, new, k)),
    decreases k,
{
    if k > 0 {
        lemma_connect_all_wf(pos, adj, hs, new, k - 1);
        lemma_connect_wf(pos, connect_all(pos, adj, hs, new, k - 1), hs[k - 1], new);
    }
}

/// Inserting `p` outside the convex hull, where it sees the hull vertices
/// `hs`, legalizes the hull edges between them: the last of them is
/// examined first, and if it is illegal for the new vertex it is not an
/// edge of the result.
pub proof fn law_outside_insertion_legalizes(pos: Seq<Point>, adj: Seq<Seq<usize>>, tol: int, p: Point, hs: Seq<usize>)
    requires
        adjacency_wf(pos, adj),
        in_range(p),
        pos.len() < usize::MAX,
        hs.len() >= 2,
        forall|i: int| 0 <= i < hs.len() ==> (#[trigger] hs[i] as int) < pos.len(),
        tol >= 0,
    ensures
        edge_illegal(
            pos.push(p),
            connect_all(pos.push(p), adj.push(Seq::<usize>::empty()), hs, pos.len() as usize, hs.len() as int),
            tol,
            hs[hs.len() - 2],
            hs[hs.len() - 1],
            pos.len() as usize,
        ) ==> !adjacent(insert_outside_adj(pos, adj, tol, p, hs), hs[hs.len() - 2], hs[hs.len() - 1]),
{
    let pos2 = pos.push(p);
    let new = pos.len() as usize;
    let base = adj.push(Seq::<usize>::empty());
    lemma_push_vertex_wf(pos, adj, p);
    lemma_connect_all_wf(pos2, base, hs, new, hs.len() as int);
    let joined = connect_all(pos2, base, hs, new, hs.len() as int);
    let pairs = windows(hs);
    assert(pairs.last() == (hs[hs.len() - 2], hs[hs.len() - 1]));
    assert(hs[hs.len() - 2] != new && hs[hs.len() - 1] != new);
    if edge_illegal(pos2, joined, tol, hs[hs.len() - 2], hs[hs.len() - 1], new) {
        law_legalize_removes_illegal_edge(pos2, joined, tol, new, pairs, legalize_fuel(pairs, pos2.len() as int));
    }
}

/// The neighbour lists after inserting one of the first three points: the
/// third one closes the first triangle.
pub open spec fn initial_adj(pos: Seq<Point>, adj: Seq<Seq<usize>>, p: Point) -> Seq<Seq<usize>> {
    let pos2 = pos.push(p);
    if pos.contains(p) {
        adj
    } else if pos.len() < 2 {
        adj.push(Seq::<usize>::empty())
    } else {
        connect_spec(
            pos2,
            connect_spec(pos2, connect_spec(pos2, adj.push(Seq::<usize>::empty()), 0, 1), 1, 2),
            2,
            0,
        )
    }
}

/// Inserting `p` finds a vertex already standing there: among the first
/// three points by comparing positions, afterwards by the walk from the
/// nearest vertex.
pub open spec fn insert_finds_existing(pos: Seq<Point>, adj: Seq<Seq<usize>>, tol: int, p: Point) -> bool {
    if pos.len() < 3 {
        pos.contains(p)
    } else {
        walk(pos, adj, tol, nearest(pos, p) as usize, p, pos.len()) matches Some(
            PositionInTriangulation::OnPoint(_),
        )
    }
}

/// The vertex that inserting `p` finds already standing there: among the
/// first three points the first one at `p`, afterwards the one on which the
/// walk from the nearest vertex ends.
pub open spec fn existing_vertex(pos: Seq<Point>, adj: Seq<Seq<usize>>, tol: int, p: Point) -> int {
    if pos.len() < 3 {
        match pos.index_of_first(p) {
            Some(i) => i,
            None => 0,
        }
    } else {
        match walk(pos, adj, tol, nearest(pos, p) as usize, p, pos.len()) {
            Some(PositionInTriangulation::OnPoint(v)) => v as int,
            _ => 0,
        }
    }
}

/// Every edge of `adj2` that does not end at `h` is an edge of `adj`.
pub open spec fn no_new_edges_except(adj: Seq<Seq<usize>>, adj2: Seq<Seq<usize>>, h: usize) -> bool {
    forall|v: usize, w: usize| #[trigger] adjacent(adj2, v, w) && v != h && w != h ==> adjacent(adj, v, w)
}

/// What inserting `p` as the new vertex `n` into a triangulation of at least
/// three vertices leaves in the neighbour lists `adj2`: no edge between
/// earlier vertices is new, and, as the walk located `p`, the new vertex is
/// joined to the three corners of the triangle it fell into, to both ends of
/// the edge it fell on (which is gone), or to every hull vertex it sees.
pub open spec fn insert_links(pos: Seq<Point>, adj: Seq<Seq<usize>>, tol: int, p: Point, adj2: Seq<Seq<usize>>) -> bool {
    let n = pos.len() as usize;
    &&& no_new_edges_except(adj, adj2, n)
    &&& match walk(pos, adj, tol, nearest(pos, p) as usize, p, pos.len()) {
        Some(PositionInTriangulation::InTriangle(a, b, c)) => adjacent(adj2, n, a) && adjacent(adj2, n, b)
            && adjacent(adj2, n, c),
        Some(PositionInTriangulation::OnEdge(v1, v2)) => adjacent(adj2, n, v1) && adjacent(adj2, n, v2)
            && !adjacent(adj2, v1, v2),
        Some(PositionInTriangulation::OutsideConvexHull(v1, v2)) => match hull_edges(
            pos,
            adj,
            tol,
            p,
            v1,
            v2,
            pos.len() * pos.len(),
        ) {
            Some(hs) => forall|i: int| 0 <= i < hs.len() ==> adjacent(adj2, n, #[trigger] hs[i]),
            None => true,
        },
        _ => true,
    }
}

/// The neighbour lists after inserting `p`, when the insertion succeeds.
pub open spec fn insert_adj(pos: Seq<Point>, adj: Seq<Seq<usize>>, tol: int, p: Point) -> Seq<Seq<usize>> {
    if pos.len() < 3 {
        initial_adj(pos, adj, p)
    } else {
        match walk(pos, adj, tol, nearest(pos, p) as usize, p, pos.len()) {
            Some(PositionInTriangulation::InTriangle(a, b, c)) => insert_triangle_adj(pos, adj, tol, p, a, b, c),
            Some(PositionInTriangulation::OnEdge(v1, v2)) => insert_edge_adj(pos, adj, tol, p, v1, v2),
            Some(PositionInTriangulation::OutsideConvexHull(v1, v2)) => match hull_edges(
                pos,
                adj,
                tol,
                p,
                v1,
                v2,
                pos.len() * pos.len(),
            ) {
                Some(hs) => insert_outside_adj(pos, adj, tol, p, hs),
                None => adj,
            },
            _ => adj,
        }
    }
}

proof fn lemma_first_nearest_upto(pos: Seq<Point>, p: Point, k: int) -> (r: int)
    requires
        1 <= k <= pos.len(),
    ensures
        0 <= r < k,
        forall|j: int| 0 <= j < k ==> dist2(pos[r], p) <= #[trigger] dist2(pos[j], p),
        forall|j: int| 0 <= j < r ==> dist2(pos[r], p) < #[trigger] dist2(pos[j], p),
    decreases k,
{
    if k == 1 {
        0
    } else {
        let r = lemma_first_nearest_upto(pos, p, k - 1);
        if dist2(pos[k - 1], p) < dist2(pos[r], p) {
            k - 1
        } else {
            r
        }
    }
}

/// A nonempty set of vertices has a first nearest one.
pub proof fn lemma_nearest_exists(pos: Seq<Point>, p: Point)
    requires
        pos.len() > 0,
    ensures
        is_first_nearest(pos, p, nearest(pos, p)),
{
    let r = lemma_first_nearest_upto(pos, p, pos.len() as int);
    assert(is_first_nearest(pos, p, r));
}

/// After a successful insertion `p` is a vertex, every earlier vertex keeps
/// its handle and position, and the number of vertices grows by one exactly
/// when the insertion did not find a vertex at `p`; so a lookup of `p`
/// afterwards finds it.
pub proof fn law_insert_keeps_vertices(pos: Seq<Point>, adj: Seq<Seq<usize>>, tol: int, p: Point, pos2: Seq<Point>)
    requires
        adjacency_wf(pos, adj),
        pos2 == if insert_finds_existing(pos, adj, tol, p) { pos } else { pos.push(p) },
    ensures
        pos2.contains(p),
        forall|i: int| 0 <= i < pos.len() ==> #[trigger] pos2[i] == pos[i],
        pos2.len() == pos.len() + if insert_finds_existing(pos, adj, tol, p) { 0int } else { 1int },
{
    if insert_finds_existing(pos, adj, tol, p) {
        if pos.len() >= 3 {
            lemma_nearest_exists(pos, p);
            lemma_walk_valid(pos, adj, tol, nearest(pos, p) as usize, p, pos.len());
            if let Some(PositionInTriangulation::OnPoint(v)) = walk(pos, adj, tol, nearest(pos, p) as usize, p, pos.len()) {
                assert(pos[v as int] == p);
            }
        }
    } else {
        assert(pos2[pos.len() as int] == p);
    }
}

} // verus!
