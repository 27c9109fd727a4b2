//! Walking along the convex hull to find the hull vertices that a point
//! outside the hull sees.
use vstd::prelude::*;
use crate::geometry::{side_of, Point};
use crate::subdivision::{adjacency_wf, adjacent, ccw_neighbor, cw_neighbor};

verus! {

/// The hull walk goes on over the edge from `b` to `c`: `p` lies, beyond the
/// tolerance, on the side of that edge given by the walking direction.
pub open spec fn hull_step_visible(pos: Seq<Point>, tol: int, p: Point, b: usize, c: usize, follow_cw: bool) -> bool {
    let side = side_of(pos[b as int], pos[c as int], p);
    (side > tol || side < -tol) && (side > 0) == follow_cw
}

/// The vertices passed by at most `fuel` steps of walking along the convex
/// hull from the directed edge `a -> b`, turning clockwise or
/// counterclockwise around each reached vertex, while `p` sees the next edge.
/// `None` if the walk has not stopped after `fuel` steps.
pub open spec fn hull_pass(pos: Seq<Point>, adj: Seq<Seq<usize>>, tol: int, p: Point, a: usize, b: usize, follow_cw: bool, fuel: nat) -> Option<Seq<usize>>
    decreases fuel,
{
    if fuel == 0 {
        None
    } else {
        let c = if follow_cw {
            cw_neighbor(adj, b, a)
        } else {
            ccw_neighbor(adj, b, a)
        };
        if hull_step_visible(pos, tol, p, b, c, follow_cw) {
            match hull_pass(pos, adj, tol, p, b, c, follow_cw, (fuel - 1) as nat) {
                Some(rest) => Some(seq![c].add(rest)),
                None => None,
            }
        } else {
            Some(Seq::<usize>::empty())
        }
    }
}

/// `s` in reverse order.
pub open spec fn reversed(s: Seq<usize>) -> Seq<usize> {
    Seq::new(s.len(), |k: int| s[s.len() - 1 - k])
}

/// The chain of convex hull vertices that `p` sees, found by walking from the
/// hull edge `v1 - v2` in both directions; each pass takes at most `fuel`
/// steps.
pub open spec fn hull_edges(pos: Seq<Point>, adj: Seq<Seq<usize>>, tol: int, p: Point, v1: usize, v2: usize, fuel: nat) -> Option<Seq<usize>> {
    let cw1 = side_of(pos[v1 as int], pos[v2 as int], p) > 0;
    let cw2 = side_of(pos[v2 as int], pos[v1 as int], p) > 0;
    match hull_pass(pos, adj, tol, p, v1, v2, cw1, fuel) {
        None => None,
        Some(front) => match hull_pass(pos, adj, tol, p, v2, v1, cw2, fuel) {
            None => None,
            Some(back) => Some(reversed(back) + seq![v1, v2] + front),
        },
    }
}

/// `acc` followed by the result, if any.
pub open spec fn prepend(acc: Seq<usize>, r: Option<Seq<usize>>) -> Option<Seq<usize>> {
    match r {
        Some(x) => Some(acc + x),
        None => None,
    }
}

/// The step from `r[i]` to `r[i + 1]` follows an edge that `p` sees in the
/// walking direction.
pub open spec fn hull_step_at(pos: Seq<Point>, adj: Seq<Seq<usize>>, tol: int, p: Point, r: Seq<usize>, i: int, follow_cw: bool) -> bool {
    adjacent(adj, r[i], r[i + 1]) && hull_step_visible(pos, tol, p, r[i], r[i + 1], follow_cw)
}

/// The hull walk only reports existing vertices; each is joined by an edge
/// to the one before it (the first to `b`), and `p` sees that edge.
pub proof fn lemma_hull_pass_valid(pos: Seq<Point>, adj: Seq<Seq<usize>>, tol: int, p: Point, a: usize, b: usize, follow_cw: bool, fuel: nat)
    requires
        adjacency_wf(pos, adj),
        adjacent(adj, a, b),
    ensures
        hull_pass(pos, adj, tol, p, a, b, follow_cw, fuel) matches Some(r) ==> forall|i: int|
            0 <= i < r.len() ==> (#[trigger] r[i] as int) < pos.len(),
        hull_pass(pos, adj, tol, p, a, b, follow_cw, fuel) matches Some(r) ==> (r.len() > 0 ==> adjacent(
            adj,
            b,
            r[0],
        ) && hull_step_visible(pos, tol, p, b, r[0], follow_cw)),
        hull_pass(pos, adj, tol, p, a, b, follow_cw, fuel) matches Some(r) ==> forall|i: int|
            0 <= i < r.len() - 1 ==> #[trigger] hull_step_at(pos, adj, tol, p, r, i, follow_cw),
    decreases fuel,
{
    if fuel > 0 {
        assert(adjacent(adj, b, a));
        let l = adj[b as int];
        let k = choose|k: int| 0 <= k < l.len() && l[k] == a;
        crate::subdivision::lemma_index_of_unique(l, k);
        let c = if follow_cw {
            cw_neighbor(adj, b, a)
        } else {
            ccw_neighbor(adj, b, a)
        };
        let i = l.index_of(a);
        assert(l.contains(c));
        assert(adjacent(adj, b, c));
        crate::subdivision::lemma_neighbor_in_range(pos, adj, b, c);
        lemma_hull_pass_valid(pos, adj, tol, p, b, c, follow_cw, (fuel - 1) as nat);
        if hull_step_visible(pos, tol, p, b, c, follow_cw) {
            if let Some(rest) = hull_pass(pos, adj, tol, p, b, c, follow_cw, (fuel - 1) as nat) {
                let r = seq![c].add(rest);
                assert forall|i: int| 0 <= i < r.len() - 1 implies #[trigger] hull_step_at(pos, adj, tol, p, r, i, follow_cw) by {
                    if i > 0 {
                        assert(hull_step_at(pos, adj, tol, p, rest, i - 1, follow_cw));
                        assert(r[i] == rest[i - 1]);
                        assert(r[i + 1] == rest[i]);
                    } else {
                        assert(r[1] == rest[0]);
                    }
                }
            }
        }
    }
}

/// `hs[i]` and `hs[i + 1]` are joined by an edge; after position `k` the
/// walk went on over that edge from `hs[i]` turning as `front_cw` says, and
/// before position `k` from `hs[i + 1]` turning as `back_cw` says, with `p`
/// on the side that the walk follows, beyond the tolerance.
pub open spec fn chain_link(pos: Seq<Point>, adj: Seq<Seq<usize>>, tol: int, p: Point, hs: Seq<usize>, i: int, k: int, front_cw: bool, back_cw: bool) -> bool {
    &&& adjacent(adj, hs[i], hs[i + 1])
    &&& i > k ==> hull_step_visible(pos, tol, p, hs[i], hs[i + 1], front_cw)
    &&& i < k ==> hull_step_visible(pos, tol, p, hs[i + 1], hs[i], back_cw)
}

/// `hs` is a chain of vertices that runs through the edge `v1 -> v2`: each
/// two consecutive vertices are joined by an edge, and every edge of the
/// chain after `v1 - v2` is one that `p` sees on the side it sees `v1 -> v2`
/// from, walking away from `v2`; every edge before it one that `p` sees on
/// the side it sees `v2 -> v1` from, walking away from `v1`.
pub open spec fn is_visible_chain(pos: Seq<Point>, adj: Seq<Seq<usize>>, tol: int, p: Point, v1: usize, v2: usize, hs: Seq<usize>) -> bool {
    let front_cw = side_of(pos[v1 as int], pos[v2 as int], p) > 0;
    let back_cw = side_of(pos[v2 as int], pos[v1 as int], p) > 0;
    &&& hs.len() >= 2
    &&& forall|i: int| 0 <= i < hs.len() ==> (#[trigger] hs[i] as int) < pos.len()
    &&& exists|k: int|
        0 <= k < hs.len() - 1 && #[trigger] hs[k] == v1 && hs[k + 1] == v2 && forall|i: int|
            0 <= i < hs.len() - 1 ==> #[trigger] chain_link(pos, adj, tol, p, hs, i, k, front_cw, back_cw)
}

/// The walk along the hull from the edge `v1 - v2` reports a chain through
/// that edge whose other edges `p` sees, in the walking direction.
pub proof fn law_hull_chain(pos: Seq<Point>, adj: Seq<Seq<usize>>, tol: int, p: Point, v1: usize, v2: usize, fuel: nat)
    requires
        adjacency_wf(pos, adj),
        adjacent(adj, v1, v2),
    ensures
        hull_edges(pos, adj, tol, p, v1, v2, fuel) matches Some(hs) ==> is_visible_chain(pos, adj, tol, p, v1, v2, hs),
{
    let cw1 = side_of(pos[v1 as int], pos[v2 as int], p) > 0;
    let cw2 = side_of(pos[v2 as int], pos[v1 as int], p) > 0;
    assert(adjacent(adj, v2, v1));
    lemma_hull_pass_valid(pos, adj, tol, p, v1, v2, cw1, fuel);
    lemma_hull_pass_valid(pos, adj, tol, p, v2, v1, cw2, fuel);
    crate::subdivision::lemma_neighbor_in_range(pos, adj, v1, v2);
    if let Some(hs) = hull_edges(pos, adj, tol, p, v1, v2, fuel) {
        let front = hull_pass(pos, adj, tol, p, v1, v2, cw1, fuel).unwrap();
        let back = hull_pass(pos, adj, tol, p, v2, v1, cw2, fuel).unwrap();
        assert(hull_pass(pos, adj, tol, p, v1, v2, cw1, fuel) == Some(front));
        assert(hull_pass(pos, adj, tol, p, v2, v1, cw2, fuel) == Some(back));
        let rb = reversed(back);
        let k = rb.len() as int;
        assert(hs == rb + seq![v1, v2] + front);
        assert(hs[k] == v1 && hs[k + 1] == v2);
        assert forall|i: int| 0 <= i < hs.len() implies (#[trigger] hs[i] as int) < pos.len() by {
            if i < k {
                assert(hs[i] == back[back.len() - 1 - i]);
            } else if i >= k + 2 {
                assert(hs[i] == front[i - k - 2]);
            }
        }
        assert forall|i: int| 0 <= i < hs.len() - 1 implies #[trigger] chain_link(pos, adj, tol, p, hs, i, k, cw1, cw2) by {
            if i < k - 1 {
                let j = back.len() - 2 - i;
                assert(hull_step_at(pos, adj, tol, p, back, j, cw2));
                assert(hs[i] == back[j + 1]);
                assert(hs[i + 1] == back[j]);
            } else if i == k - 1 {
                assert(hs[i] == back[0]);
            } else if i == k + 1 {
                assert(hs[i + 1] == front[0]);
            } else if i > k + 1 {
                let j = i - k - 2;
                assert(hull_step_at(pos, adj, tol, p, front, j, cw1));
                assert(hs[i] == front[j]);
                assert(hs[i + 1] == front[j + 1]);
            }
        }
    }
}

/// The directed edge the hull walk from `a -> b` stands on after `k` steps,
/// if each of those steps went on.
pub open spec fn hull_at(pos: Seq<Point>, adj: Seq<Seq<usize>>, tol: int, p: Point, a: usize, b: usize, follow_cw: bool, k: nat) -> Option<(usize, usize)>
    decreases k,
{
    if k == 0 {
        Some((a, b))
    } else {
        let c = if follow_cw {
            cw_neighbor(adj, b, a)
        } else {
            ccw_neighbor(adj, b, a)
        };
        if hull_step_visible(pos, tol, p, b, c, follow_cw) {
            hull_at(pos, adj, tol, p, b, c, follow_cw, (k - 1) as nat)
        } else {
            None
        }
    }
}

proof fn lemma_hull_at_compose(pos: Seq<Point>, adj: Seq<Seq<usize>>, tol: int, p: Point, a: usize, b: usize, fc: bool, x: nat, y: nat)
    ensures
        hull_at(pos, adj, tol, p, a, b, fc, x + y) == match hull_at(pos, adj, tol, p, a, b, fc, x) {
            Some(e) => hull_at(pos, adj, tol, p, e.0, e.1, fc, y),
            None => None,
        },
    decreases x,
{
    if x > 0 {
        let c = if fc {
            cw_neighbor(adj, b, a)
        } else {
            ccw_neighbor(adj, b, a)
        };
        if hull_step_visible(pos, tol, p, b, c, fc) {
            lemma_hull_at_compose(pos, adj, tol, p, b, c, fc, (x - 1) as nat, y);
            assert((x + y - 1) as nat == ((x - 1) as nat + y) as nat);
        }
    }
}

proof fn lemma_hull_at_valid(pos: Seq<Point>, adj: Seq<Seq<usize>>, tol: int, p: Point, a: usize, b: usize, fc: bool, k: nat)
    requires
        adjacency_wf(pos, adj),
        adjacent(adj, a, b),
    ensures
        hull_at(pos, adj, tol, p, a, b, fc, k) matches Some(e) ==> adjacent(adj, e.0, e.1),
    decreases k,
{
    if k > 0 {
        assert(adjacent(adj, b, a));
        let l = adj[b as int];
        let kk = choose|kk: int| 0 <= kk < l.len() && l[kk] == a;
        crate::subdivision::lemma_index_of_unique(l, kk);
        let c = if fc {
            cw_neighbor(adj, b, a)
        } else {
            ccw_neighbor(adj, b, a)
        };
        assert(l.contains(c));
        lemma_hull_at_valid(pos, adj, tol, p, b, c, fc, (k - 1) as nat);
    }
}

proof fn lemma_hull_none_iff(pos: Seq<Point>, adj: Seq<Seq<usize>>, tol: int, p: Point, a: usize, b: usize, fc: bool, fuel: nat)
    ensures
        (hull_pass(pos, adj, tol, p, a, b, fc, fuel) == None::<Seq<usize>>) == (hull_at(pos, adj, tol, p, a, b, fc, fuel) is Some),
        hull_at(pos, adj, tol, p, a, b, fc, fuel) is Some ==> forall|k: nat| k <= fuel ==> #[trigger] hull_at(pos, adj, tol, p, a, b, fc, k) is Some,
    decreases fuel,
{
    if fuel > 0 {
        let c = if fc {
            cw_neighbor(adj, b, a)
        } else {
            ccw_neighbor(adj, b, a)
        };
        if hull_step_visible(pos, tol, p, b, c, fc) {
            lemma_hull_none_iff(pos, adj, tol, p, b, c, fc, (fuel - 1) as nat);
            if hull_at(pos, adj, tol, p, a, b, fc, fuel) is Some {
                assert forall|k: nat| k <= fuel implies #[trigger] hull_at(pos, adj, tol, p, a, b, fc, k) is Some by {
                    if k > 0 {
                        assert(hull_at(pos, adj, tol, p, b, c, fc, (k - 1) as nat) is Some);
                    }
                }
            }
        }
    }
}

proof fn lemma_hull_cycle(pos: Seq<Point>, adj: Seq<Seq<usize>>, tol: int, p: Point, a: usize, b: usize, fc: bool, l: nat, m: nat)
    requires
        l > 0,
        hull_at(pos, adj, tol, p, a, b, fc, l) == Some((a, b)),
    ensures
        hull_at(pos, adj, tol, p, a, b, fc, m) is Some,
    decreases m,
{
    if m < l {
        lemma_hull_at_compose(pos, adj, tol, p, a, b, fc, m, (l - m) as nat);
    } else {
        lemma_hull_at_compose(pos, adj, tol, p, a, b, fc, l, (m - l) as nat);
        lemma_hull_cycle(pos, adj, tol, p, a, b, fc, l, (m - l) as nat);
    }
}

proof fn lemma_pair_code(x1: int, y1: int, x2: int, y2: int, n: int)
    by (nonlinear_arith)
    requires
        0 <= x1 < n,
        0 <= y1 < n,
        0 <= x2 < n,
        0 <= y2 < n,
        x1 * n + y1 == x2 * n + y2,
    ensures
        x1 == x2 && y1 == y2,
{
}

proof fn lemma_pair_code_bound(x: int, y: int, n: int)
    by (nonlinear_arith)
    requires
        0 <= x < n,
        0 <= y < n,
    ensures
        0 <= x * n + y < n * n,
{
}

/// The walk along the hull gives up only where it would never end: if a
/// pass has not ended after `n * n` steps, where `n` is the number of
/// vertices, no number of steps ends it.
pub proof fn law_hull_walk_gives_up_only_when_endless(pos: Seq<Point>, adj: Seq<Seq<usize>>, tol: int, p: Point, a: usize, b: usize, fc: bool, k: nat)
    requires
        adjacency_wf(pos, adj),
        adjacent(adj, a, b),
        hull_pass(pos, adj, tol, p, a, b, fc, pos.len() * pos.len()) == None::<Seq<usize>>,
    ensures
        hull_pass(pos, adj, tol, p, a, b, fc, k) == None::<Seq<usize>>,
{
    let n = pos.len();
    let f = n * n;
    lemma_hull_none_iff(pos, adj, tol, p, a, b, fc, f);
    let es = Seq::new((f + 1) as nat, |j: int| hull_at(pos, adj, tol, p, a, b, fc, j as nat).unwrap());
    let codes = Seq::new((f + 1) as nat, |j: int| es[j].0 as int * n + es[j].1 as int);
    assert forall|j: int| 0 <= j < es.len() implies adjacent(adj, (#[trigger] es[j]).0, es[j].1) by {
        assert(hull_at(pos, adj, tol, p, a, b, fc, j as nat) is Some);
        lemma_hull_at_valid(pos, adj, tol, p, a, b, fc, j as nat);
    }
    assert forall|j: int| 0 <= j < codes.len() implies 0 <= #[trigger] codes[j] < n * n by {
        assert(adjacent(adj, es[j].0, es[j].1));
        let l = adj[es[j].0 as int];
        let kk = choose|kk: int| 0 <= kk < l.len() && l[kk] == es[j].1;
        assert((l[kk] as int) < n);
        lemma_pair_code_bound(es[j].0 as int, es[j].1 as int, n as int);
    }
    if codes.no_duplicates() {
        codes.unique_seq_to_set();
        vstd::set_lib::lemma_int_range(0, (n * n) as int);
        assert forall|x: int| codes.to_set().contains(x) implies vstd::set_lib::set_int_range(0, (n * n) as int).contains(x) by {
            let j = choose|j: int| 0 <= j < codes.len() && codes[j] == x;
            assert(0 <= codes[j] < n * n);
        }
        vstd::set_lib::lemma_len_subset(codes.to_set(), vstd::set_lib::set_int_range(0, (n * n) as int));
        assert(false);
    }
    let (i, j) = choose|i: int, j: int| 0 <= i < codes.len() && 0 <= j < codes.len() && i != j && codes[i] == codes[j];
    let (lo, hi) = if i < j { (i, j) } else { (j, i) };
    assert(adjacent(adj, es[lo].0, es[lo].1));
    assert(adjacent(adj, es[hi].0, es[hi].1));
    let llo = adj[es[lo].0 as int];
    let k1 = choose|kk: int| 0 <= kk < llo.len() && llo[kk] == es[lo].1;
    assert((llo[k1] as int) < n);
    let lhi = adj[es[hi].0 as int];
    let k2 = choose|kk: int| 0 <= kk < lhi.len() && lhi[kk] == es[hi].1;
    assert((lhi[k2] as int) < n);
    assert(codes[lo] == codes[hi]);
    lemma_pair_code(es[lo].0 as int, es[lo].1 as int, es[hi].0 as int, es[hi].1 as int, n as int);
    let e = es[lo];
    assert(hull_at(pos, adj, tol, p, a, b, fc, lo as nat) is Some);
    assert(hull_at(pos, adj, tol, p, a, b, fc, hi as nat) is Some);
    assert(hull_at(pos, adj, tol, p, a, b, fc, lo as nat) == Some(e));
    assert(es[hi] == e);
    assert(hull_at(pos, adj, tol, p, a, b, fc, hi as nat) == Some(e));
    lemma_hull_at_compose(pos, adj, tol, p, a, b, fc, lo as nat, (hi - lo) as nat);
    assert((lo as nat + (hi - lo) as nat) as nat == hi as nat);
    assert(hull_at(pos, adj, tol, p, e.0, e.1, fc, (hi - lo) as nat) == Some(e));
    if k > lo {
        lemma_hull_cycle(pos, adj, tol, p, e.0, e.1, fc, (hi - lo) as nat, (k - lo) as nat);
        lemma_hull_at_compose(pos, adj, tol, p, a, b, fc, lo as nat, (k - lo) as nat);
        assert((lo as nat + (k - lo) as nat) as nat == k);
    } else {
        assert(hull_at(pos, adj, tol, p, a, b, fc, k) is Some);
    }
    lemma_hull_none_iff(pos, adj, tol, p, a, b, fc, k);
}

} // verus!
