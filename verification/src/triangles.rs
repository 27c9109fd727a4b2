//! Enumerating the triangles of a triangulation.
use vstd::prelude::*;
use crate::delaunay::DelaunayTriangulation;
use crate::geometry::{
    contained_in_circumference, in_circumcircle, in_range, incircle_det, is_on_left_side,
    law_incircle_symmetry, side_of,
    Point,
};
use crate::subdivision::{adjacency_wf, adjacent, ccw_neighbor, lemma_neighbor_in_range};

verus! {

/// The pair of consecutive neighbours `(nb[i], nb[i + 1])` (cyclically) of
/// `h0`, if both have a larger handle than `h0`.
pub open spec fn candidate_at(adj: Seq<Seq<usize>>, h0: usize, i: int) -> Seq<(usize, usize)> {
    let nb = adj[h0 as int];
    let h1 = nb[i];
    let h2 = if i + 1 == nb.len() {
        nb[0]
    } else {
        nb[i + 1]
    };
    if h0 < h1 && h0 < h2 {
        seq![(h1, h2)]
    } else {
        Seq::empty()
    }
}

/// The candidate pairs of `h0` from its first `i` neighbours.
pub open spec fn candidates_upto(adj: Seq<Seq<usize>>, h0: usize, i: int) -> Seq<(usize, usize)>
    decreases i,
{
    if i <= 0 {
        Seq::empty()
    } else {
        candidates_upto(adj, h0, i - 1) + candidate_at(adj, h0, i - 1)
    }
}

/// The candidate pairs of `h0`: consecutive neighbours with larger handles.
pub open spec fn candidates(adj: Seq<Seq<usize>>, h0: usize) -> Seq<(usize, usize)> {
    candidates_upto(adj, h0, adj[h0 as int].len() as int)
}

/// The triangles `(h0, h1, h2)` that the pairs of `stack` give, taken from
/// the end of the stack, keeping those that turn counterclockwise.
pub open spec fn stack_triangles(pos: Seq<Point>, h0: usize, stack: Seq<(usize, usize)>) -> Seq<(usize, usize, usize)>
    decreases stack.len(),
{
    if stack.len() == 0 {
        Seq::empty()
    } else {
        let (h1, h2) = stack.last();
        let rest = stack_triangles(pos, h0, stack.drop_last());
        if side_of(pos[h0 as int], pos[h1 as int], pos[h2 as int]) > 0 {
            seq![(h0, h1, h2)] + rest
        } else {
            rest
        }
    }
}

/// The triangles whose smallest vertex handle is at least `idx`, in the
/// order the iterator reports them.
pub open spec fn triangles_from(pos: Seq<Point>, adj: Seq<Seq<usize>>, idx: int) -> Seq<(usize, usize, usize)>
    decreases adj.len() - idx,
{
    if idx < 0 || idx >= adj.len() {
        Seq::empty()
    } else {
        stack_triangles(pos, idx as usize, candidates(adj, idx as usize)) + triangles_from(pos, adj, idx + 1)
    }
}

/// All triangles of the triangulation: each reported once, from its
/// smallest vertex `h0`, with `h1` and `h2` consecutive neighbours of `h0` in
/// counterclockwise order.
pub open spec fn all_triangles(pos: Seq<Point>, adj: Seq<Seq<usize>>) -> Seq<(usize, usize, usize)> {
    triangles_from(pos, adj, 0)
}

/// A triangle given by its three vertex handles, counterclockwise.
pub struct DelaunayTriangle(pub [usize; 3]);

/// Enumerates the triangles of a triangulation.
pub struct DelaunayTriangleIterator<'a, V> {
    delaunay: &'a DelaunayTriangulation<V>,
    current_index: usize,
    current_neighbors: Vec<(usize, usize)>,
}

impl<'a, V> DelaunayTriangleIterator<'a, V> {
    /// The triangulation being enumerated.
    pub closed spec fn triangulation(&self) -> DelaunayTriangulation<V> {
        *self.delaunay
    }

    /// The iterator's state is consistent.
    pub closed spec fn valid(&self) -> bool {
        let n = self.delaunay.s.positions().len();
        &&& self.delaunay.wf()
        &&& self.current_index <= n
        &&& self.current_index == 0 ==> self.current_neighbors@.len() == 0
        &&& forall|i: int|
            0 <= i < self.current_neighbors@.len() ==> (#[trigger] self.current_neighbors@[i]).0 < n
                && self.current_neighbors@[i].1 < n
    }

    /// The triangles still to come.
    pub closed spec fn remaining(&self) -> Seq<(usize, usize, usize)> {
        let pos = self.delaunay.s.positions();
        let adj = self.delaunay.s.adj();
        let pending = if self.current_index == 0 {
            Seq::empty()
        } else {
            stack_triangles(pos, (self.current_index - 1) as usize, self.current_neighbors@)
        };
        pending + triangles_from(pos, adj, self.current_index as int)
    }

    /// The next triangle, if any.
    pub fn next(&mut self) -> (r: Option<DelaunayTriangle>)
        requires
            old(self).valid(),
        ensures
            final(self).valid(),
            final(self).triangulation() == old(self).triangulation(),
            old(self).remaining().len() == 0 ==> r is None && final(self).remaining().len() == 0,
            old(self).remaining().len() > 0 ==> {
                &&& r matches Some(t) && t.0@ == seq![
                    old(self).remaining()[0].0,
                    old(self).remaining()[0].1,
                    old(self).remaining()[0].2,
                ]
                &&& final(self).remaining() == old(self).remaining().drop_first()
            },
    {
        let ghost total = self.remaining();
        let ghost pos = self.delaunay.s.positions();
        let ghost adj = self.delaunay.s.adj();
        let n = self.delaunay.num_vertices();
        loop
            invariant
                self.valid(),
                self.triangulation() == old(self).triangulation(),
                self.remaining() == total,
                total == old(self).remaining(),
                pos == self.delaunay.s.positions(),
                adj == self.delaunay.s.adj(),
                n == pos.len(),
            decreases n - self.current_index, self.current_neighbors@.len(),
        {
            if self.current_neighbors.len() > 0 {
                let (h1, h2) = self.current_neighbors.pop().unwrap();
                let h0 = self.current_index - 1;
                let p0 = self.delaunay.s.position(h0);
                let p1 = self.delaunay.s.position(h1);
                let p2 = self.delaunay.s.position(h2);
                if is_on_left_side(p0, p1, p2) {
                    let t = DelaunayTriangle([h0, h1, h2]);
                    assert(t.0@ =~= seq![h0, h1, h2]);
                    proof {
                        assert(self.remaining() =~= total.drop_first());
                    }
                    return Some(t);
                }
            } else {
                let h0 = self.current_index;
                if h0 >= n {
                    return None;
                }
                let nbs = self.delaunay.s.neighbors(h0);
                let len = nbs.len();
                proof {
                    assert forall|j: int| 0 <= j < nbs@.len() implies (#[trigger] nbs@[j] as int) < n by {
                        assert((adj[h0 as int][j] as int) < adj.len());
                    }
                }
                self.current_index = self.current_index + 1;
                assert(self.remaining() =~= triangles_from(pos, adj, h0 as int + 1));
                let mut i: usize = 0;
                while i < len
                    invariant
                        self.valid(),
                        self.triangulation() == old(self).triangulation(),
                        pos == self.delaunay.s.positions(),
                        adj == self.delaunay.s.adj(),
                        n == pos.len(),
                        h0 + 1 == self.current_index,
                        h0 < n,
                        nbs@ == adj[h0 as int],
                        len == nbs@.len(),
                        forall|j: int| 0 <= j < nbs@.len() ==> (#[trigger] nbs@[j] as int) < n,
                        i <= len,
                        self.current_neighbors@ == candidates_upto(adj, h0, i as int),
                    decreases len - i,
                {
                    let h1 = nbs[i];
                    if h0 < h1 {
                        let h2 = if i + 1 == len {
                            nbs[0]
                        } else {
                            nbs[i + 1]
                        };
                        if h0 < h2 {
                            self.current_neighbors.push((h1, h2));
                        }
                    }
                    assert(self.current_neighbors@ =~= candidates_upto(adj, h0, i as int + 1));
                    i = i + 1;
                }
                assert(self.remaining() =~= total);
            }
        }
    }

    /// The number of triangles still to come; consumes the iterator.
    pub fn count(self) -> (c: usize)
        requires
            self.valid(),
            self.remaining().len() <= usize::MAX,
        ensures
            c == self.remaining().len(),
    {
        let ghost total = self.remaining().len();
        let mut it = self;
        let mut c: usize = 0;
        loop
            invariant
                it.valid(),
                c + it.remaining().len() == total,
                total <= usize::MAX,
                total == self.remaining().len(),
            decreases it.remaining().len(),
        {
            match it.next() {
                Some(_) => {
                    c = c + 1;
                },
                None => {
                    return c;
                },
            }
        }
    }
}

/// `(a, b, c)` is a counterclockwise triangle of the subdivision, named from
/// its smallest vertex `a`: `b` and `c` are neighbours of `a`, and `c` follows
/// `b` in the counterclockwise order around `a`.
pub open spec fn is_reported_triangle(pos: Seq<Point>, adj: Seq<Seq<usize>>, t: (usize, usize, usize)) -> bool {
    let (a, b, c) = t;
    &&& a < b
    &&& a < c
    &&& adjacent(adj, a, b)
    &&& adjacent(adj, a, c)
    &&& c == ccw_neighbor(adj, a, b)
    &&& side_of(pos[a as int], pos[b as int], pos[c as int]) > 0
}

/// `(h1, h2)` is a pair of consecutive neighbours of `h0`, both with larger
/// handles.
pub open spec fn candidate_ok(adj: Seq<Seq<usize>>, h0: usize, pair: (usize, usize)) -> bool {
    &&& h0 < pair.0
    &&& h0 < pair.1
    &&& adjacent(adj, h0, pair.0)
    &&& adjacent(adj, h0, pair.1)
    &&& pair.1 == ccw_neighbor(adj, h0, pair.0)
}

proof fn lemma_candidates_ok(adj: Seq<Seq<usize>>, pos: Seq<Point>, h0: usize, i: int)
    requires
        adjacency_wf(pos, adj),
        (h0 as int) < adj.len(),
        0 <= i <= adj[h0 as int].len(),
    ensures
        forall|k: int| 0 <= k < candidates_upto(adj, h0, i).len() ==> candidate_ok(adj, h0, #[trigger] candidates_upto(adj, h0, i)[k]),
    decreases i,
{
    if i > 0 {
        lemma_candidates_ok(adj, pos, h0, i - 1);
        let nb = adj[h0 as int];
        let c = candidate_at(adj, h0, i - 1);
        if c.len() > 0 {
            crate::subdivision::lemma_index_of_unique(nb, i - 1);
            let h1 = nb[i - 1];
            assert(nb.contains(h1));
            let h2 = c[0].1;
            if i == nb.len() {
                assert(h2 == nb[0]);
                assert(nb.contains(nb[0]));
            } else {
                assert(h2 == nb[i]);
                assert(nb.contains(nb[i]));
            }
        }
        let all = candidates_upto(adj, h0, i);
        let prev = candidates_upto(adj, h0, i - 1);
        assert(all == prev + c);
        assert forall|k: int| 0 <= k < all.len() implies candidate_ok(adj, h0, #[trigger] all[k]) by {
            if k < prev.len() {
                assert(all[k] == prev[k]);
            } else {
                assert(all[k] == c[k - prev.len()]);
            }
        }
    }
}

proof fn lemma_stack_triangles_ok(pos: Seq<Point>, adj: Seq<Seq<usize>>, h0: usize, stack: Seq<(usize, usize)>)
    requires
        forall|k: int| 0 <= k < stack.len() ==> candidate_ok(adj, h0, #[trigger] stack[k]),
    ensures
        forall|k: int| 0 <= k < stack_triangles(pos, h0, stack).len() ==> is_reported_triangle(pos, adj, #[trigger] stack_triangles(pos, h0, stack)[k]),
    decreases stack.len(),
{
    if stack.len() > 0 {
        let rest = stack.drop_last();
        assert forall|k: int| 0 <= k < rest.len() implies candidate_ok(adj, h0, #[trigger] rest[k]) by {
            assert(rest[k] == stack[k]);
        }
        lemma_stack_triangles_ok(pos, adj, h0, rest);
        assert(candidate_ok(adj, h0, stack[stack.len() - 1]));
        let t = stack_triangles(pos, h0, stack);
        let tr = stack_triangles(pos, h0, rest);
        let (h1, h2) = stack.last();
        if side_of(pos[h0 as int], pos[h1 as int], pos[h2 as int]) > 0 {
            assert forall|k: int| 0 <= k < t.len() implies is_reported_triangle(pos, adj, #[trigger] t[k]) by {
                if k > 0 {
                    assert(t[k] == tr[k - 1]);
                }
            }
        }
    }
}

proof fn lemma_triangles_from_ok(pos: Seq<Point>, adj: Seq<Seq<usize>>, idx: int)
    requires
        adjacency_wf(pos, adj),
    ensures
        forall|k: int| 0 <= k < triangles_from(pos, adj, idx).len() ==> is_reported_triangle(pos, adj, #[trigger] triangles_from(pos, adj, idx)[k]),
    decreases adj.len() - idx,
{
    if 0 <= idx < adj.len() {
        lemma_triangles_from_ok(pos, adj, idx + 1);
        lemma_candidates_ok(adj, pos, idx as usize, adj[idx].len() as int);
        lemma_stack_triangles_ok(pos, adj, idx as usize, candidates(adj, idx as usize));
        let first = stack_triangles(pos, idx as usize, candidates(adj, idx as usize));
        let rest = triangles_from(pos, adj, idx + 1);
        let all = triangles_from(pos, adj, idx);
        assert(all == first + rest);
        assert forall|k: int| 0 <= k < all.len() implies is_reported_triangle(pos, adj, #[trigger] all[k]) by {
            if k < first.len() {
                assert(all[k] == first[k]);
            } else {
                assert(all[k] == rest[k - first.len()]);
            }
        }
    }
}

/// Every triangle the enumeration reports is a counterclockwise triangle of
/// the subdivision, named from its smallest vertex, so none is reported
/// twice under a rotation of its corners.
pub proof fn law_reported_triangles(pos: Seq<Point>, adj: Seq<Seq<usize>>)
    requires
        adjacency_wf(pos, adj),
    ensures
        forall|k: int| 0 <= k < all_triangles(pos, adj).len() ==> is_reported_triangle(pos, adj, #[trigger] all_triangles(pos, adj)[k]),
{
    lemma_triangles_from_ok(pos, adj, 0);
}

proof fn lemma_candidates_distinct(adj: Seq<Seq<usize>>, pos: Seq<Point>, h0: usize, i: int)
    requires
        adjacency_wf(pos, adj),
        (h0 as int) < adj.len(),
        0 <= i <= adj[h0 as int].len(),
    ensures
        forall|k: int| 0 <= k < candidates_upto(adj, h0, i).len() ==> exists|m: int| 0 <= m < i && adj[h0 as int][m] == (#[trigger] candidates_upto(adj, h0, i)[k]).0,
        forall|k1: int, k2: int|
            0 <= k1 < k2 < candidates_upto(adj, h0, i).len() ==> (#[trigger] candidates_upto(adj, h0, i)[k1]).0 != (#[trigger] candidates_upto(adj, h0, i)[k2]).0,
    decreases i,
{
    if i > 0 {
        lemma_candidates_distinct(adj, pos, h0, i - 1);
        let nb = adj[h0 as int];
        let prev = candidates_upto(adj, h0, i - 1);
        let c = candidate_at(adj, h0, i - 1);
        let all = candidates_upto(adj, h0, i);
        assert(all == prev + c);
        assert forall|k: int| 0 <= k < all.len() implies exists|m: int| 0 <= m < i && nb[m] == (#[trigger] all[k]).0 by {
            if k < prev.len() {
                assert(all[k] == prev[k]);
                let m = choose|m: int| 0 <= m < i - 1 && nb[m] == prev[k].0;
                assert(0 <= m < i && nb[m] == all[k].0);
            } else {
                assert(all[k] == c[k - prev.len()]);
                assert(nb[i - 1] == all[k].0);
            }
        }
        assert forall|k1: int, k2: int| 0 <= k1 < k2 < all.len() implies (#[trigger] all[k1]).0 != (#[trigger] all[k2]).0 by {
            if k2 < prev.len() {
                assert(all[k1] == prev[k1] && all[k2] == prev[k2]);
            } else {
                assert(all[k2] == c[k2 - prev.len()]);
                assert(all[k1] == prev[k1]);
                let m = choose|m: int| 0 <= m < i - 1 && nb[m] == prev[k1].0;
                assert(nb[m] != nb[i - 1]);
            }
        }
    }
}

proof fn lemma_stack_triangles_distinct(pos: Seq<Point>, h0: usize, stack: Seq<(usize, usize)>)
    requires
        forall|k1: int, k2: int| 0 <= k1 < k2 < stack.len() ==> (#[trigger] stack[k1]).0 != (#[trigger] stack[k2]).0,
    ensures
        stack_triangles(pos, h0, stack).no_duplicates(),
        forall|k: int| 0 <= k < stack_triangles(pos, h0, stack).len() ==> (#[trigger] stack_triangles(pos, h0, stack)[k]).0 == h0
            && exists|m: int| 0 <= m < stack.len() && stack[m].0 == stack_triangles(pos, h0, stack)[k].1,
    decreases stack.len(),
{
    if stack.len() > 0 {
        let rest = stack.drop_last();
        assert forall|k1: int, k2: int| 0 <= k1 < k2 < rest.len() implies (#[trigger] rest[k1]).0 != (#[trigger] rest[k2]).0 by {
            assert(rest[k1] == stack[k1] && rest[k2] == stack[k2]);
        }
        lemma_stack_triangles_distinct(pos, h0, rest);
        let t = stack_triangles(pos, h0, stack);
        let tr = stack_triangles(pos, h0, rest);
        let (h1, h2) = stack.last();
        if side_of(pos[h0 as int], pos[h1 as int], pos[h2 as int]) > 0 {
            assert(t == seq![(h0, h1, h2)] + tr);
            assert forall|k: int| 0 <= k < t.len() implies (#[trigger] t[k]).0 == h0 && exists|m: int| 0 <= m < stack.len() && stack[m].0 == t[k].1 by {
                if k == 0 {
                    assert(stack[stack.len() - 1].0 == t[k].1);
                } else {
                    assert(t[k] == tr[k - 1]);
                    let m = choose|m: int| 0 <= m < rest.len() && rest[m].0 == tr[k - 1].1;
                    assert(stack[m].0 == t[k].1);
                }
            }
            assert forall|i: int, j: int| 0 <= i < t.len() && 0 <= j < t.len() && i != j implies t[i] != t[j] by {
                if i == 0 && j > 0 {
                    assert(t[j] == tr[j - 1]);
                    let m = choose|m: int| 0 <= m < rest.len() && rest[m].0 == tr[j - 1].1;
                    assert(stack[m].0 != stack[stack.len() - 1].0);
                } else if j == 0 && i > 0 {
                    assert(t[i] == tr[i - 1]);
                    let m = choose|m: int| 0 <= m < rest.len() && rest[m].0 == tr[i - 1].1;
                    assert(stack[m].0 != stack[stack.len() - 1].0);
                } else if i > 0 && j > 0 {
                    assert(t[i] == tr[i - 1] && t[j] == tr[j - 1]);
                }
            }
        } else {
            assert forall|k: int| 0 <= k < t.len() implies (#[trigger] t[k]).0 == h0 && exists|m: int| 0 <= m < stack.len() && stack[m].0 == t[k].1 by {
                let m = choose|m: int| 0 <= m < rest.len() && rest[m].0 == tr[k].1;
                assert(stack[m].0 == t[k].1);
            }
        }
    }
}

proof fn lemma_triangles_from_distinct(pos: Seq<Point>, adj: Seq<Seq<usize>>, idx: int)
    requires
        adjacency_wf(pos, adj),
        0 <= idx,
    ensures
        triangles_from(pos, adj, idx).no_duplicates(),
        forall|k: int| 0 <= k < triangles_from(pos, adj, idx).len() ==> (#[trigger] triangles_from(pos, adj, idx)[k]).0 >= idx,
    decreases adj.len() - idx,
{
    if idx < adj.len() {
        lemma_triangles_from_distinct(pos, adj, idx + 1);
        let h0 = idx as usize;
        let cands = candidates(adj, h0);
        lemma_candidates_distinct(adj, pos, h0, adj[idx].len() as int);
        lemma_stack_triangles_distinct(pos, h0, cands);
        let first = stack_triangles(pos, h0, cands);
        let rest = triangles_from(pos, adj, idx + 1);
        let all = triangles_from(pos, adj, idx);
        assert(all == first + rest);
        assert forall|k: int| 0 <= k < all.len() implies (#[trigger] all[k]).0 >= idx by {
            if k < first.len() {
                assert(all[k] == first[k]);
            } else {
                assert(all[k] == rest[k - first.len()]);
            }
        }
        assert forall|i: int, j: int| 0 <= i < all.len() && 0 <= j < all.len() && i != j implies all[i] != all[j] by {
            if i < first.len() && j < first.len() {
                assert(all[i] == first[i] && all[j] == first[j]);
            } else if i >= first.len() && j >= first.len() {
                assert(all[i] == rest[i - first.len()] && all[j] == rest[j - first.len()]);
            } else if i < first.len() {
                assert(all[i] == first[i] && all[j] == rest[j - first.len()]);
            } else {
                assert(all[j] == first[j] && all[i] == rest[i - first.len()]);
            }
        }
    }
}

/// The enumeration reports no triangle twice.
pub proof fn law_triangles_reported_once(pos: Seq<Point>, adj: Seq<Seq<usize>>)
    requires
        adjacency_wf(pos, adj),
    ensures
        all_triangles(pos, adj).no_duplicates(),
{
    lemma_triangles_from_distinct(pos, adj, 0);
}

proof fn lemma_candidates_complete(adj: Seq<Seq<usize>>, pos: Seq<Point>, h0: usize, i: int, j: int)
    requires
        adjacency_wf(pos, adj),
        (h0 as int) < adj.len(),
        0 <= j < i <= adj[h0 as int].len(),
        candidate_at(adj, h0, j).len() > 0,
    ensures
        candidates_upto(adj, h0, i).contains(candidate_at(adj, h0, j)[0]),
    decreases i,
{
    let prev = candidates_upto(adj, h0, i - 1);
    let c = candidate_at(adj, h0, i - 1);
    assert(candidates_upto(adj, h0, i) == prev + c);
    if j == i - 1 {
        assert((prev + c)[prev.len() as int] == c[0]);
    } else {
        lemma_candidates_complete(adj, pos, h0, i - 1, j);
        let k = choose|k: int| 0 <= k < prev.len() && prev[k] == candidate_at(adj, h0, j)[0];
        assert((prev + c)[k] == prev[k]);
    }
}

proof fn lemma_stack_triangles_complete(pos: Seq<Point>, h0: usize, stack: Seq<(usize, usize)>, m: int)
    requires
        0 <= m < stack.len(),
        side_of(pos[h0 as int], pos[stack[m].0 as int], pos[stack[m].1 as int]) > 0,
    ensures
        stack_triangles(pos, h0, stack).contains((h0, stack[m].0, stack[m].1)),
    decreases stack.len(),
{
    let rest = stack.drop_last();
    let tr = stack_triangles(pos, h0, rest);
    let (h1, h2) = stack.last();
    if m == stack.len() - 1 {
        assert(stack_triangles(pos, h0, stack)[0] == (h0, h1, h2));
    } else {
        assert(rest[m] == stack[m]);
        lemma_stack_triangles_complete(pos, h0, rest, m);
        let k = choose|k: int| 0 <= k < tr.len() && tr[k] == (h0, stack[m].0, stack[m].1);
        if side_of(pos[h0 as int], pos[h1 as int], pos[h2 as int]) > 0 {
            assert(stack_triangles(pos, h0, stack)[k + 1] == tr[k]);
        } else {
            assert(stack_triangles(pos, h0, stack)[k] == tr[k]);
        }
    }
}

proof fn lemma_triangles_from_complete(pos: Seq<Point>, adj: Seq<Seq<usize>>, idx: int, t: (usize, usize, usize))
    requires
        adjacency_wf(pos, adj),
        0 <= idx <= t.0,
        is_reported_triangle(pos, adj, t),
    ensures
        triangles_from(pos, adj, idx).contains(t),
    decreases adj.len() - idx,
{
    let (a, b, c) = t;
    lemma_neighbor_in_range(pos, adj, a, b);
    let first = stack_triangles(pos, idx as usize, candidates(adj, idx as usize));
    let rest = triangles_from(pos, adj, idx + 1);
    assert(triangles_from(pos, adj, idx) == first + rest);
    if idx == a as int {
        let nb = adj[a as int];
        let j = nb.index_of(b);
        assert(nb[j] == b);
        assert(candidate_at(adj, a, j) == seq![(b, c)]);
        lemma_candidates_complete(adj, pos, a, nb.len() as int, j);
        let cands = candidates(adj, a);
        let m = choose|m: int| 0 <= m < cands.len() && cands[m] == (b, c);
        lemma_stack_triangles_complete(pos, a, cands, m);
        let k = choose|k: int| 0 <= k < first.len() && first[k] == t;
        assert((first + rest)[k] == t);
    } else {
        lemma_triangles_from_complete(pos, adj, idx + 1, t);
        let k = choose|k: int| 0 <= k < rest.len() && rest[k] == t;
        assert((first + rest)[first.len() + k] == t);
    }
}

/// The enumeration is complete: every counterclockwise triangle of the
/// subdivision, named from its smallest vertex, is reported; together with
/// `law_reported_triangles` and `law_triangles_reported_once`, the reported
/// triangles are exactly these, each once.
pub proof fn law_all_triangles_reported(pos: Seq<Point>, adj: Seq<Seq<usize>>, t: (usize, usize, usize))
    requires
        adjacency_wf(pos, adj),
        is_reported_triangle(pos, adj, t),
    ensures
        all_triangles(pos, adj).contains(t),
{
    lemma_triangles_from_complete(pos, adj, 0, t);
}

proof fn lemma_triangles_from_ordered(pos: Seq<Point>, adj: Seq<Seq<usize>>, idx: int)
    requires
        adjacency_wf(pos, adj),
        0 <= idx,
    ensures
        forall|i: int, j: int|
            0 <= i < j < triangles_from(pos, adj, idx).len() ==> (#[trigger] triangles_from(pos, adj, idx)[i]).0
                <= (#[trigger] triangles_from(pos, adj, idx)[j]).0,
    decreases adj.len() - idx,
{
    if idx < adj.len() {
        lemma_triangles_from_ordered(pos, adj, idx + 1);
        lemma_triangles_from_distinct(pos, adj, idx + 1);
        let h0 = idx as usize;
        let cands = candidates(adj, h0);
        lemma_candidates_distinct(adj, pos, h0, adj[idx].len() as int);
        lemma_stack_triangles_distinct(pos, h0, cands);
        let first = stack_triangles(pos, h0, cands);
        let rest = triangles_from(pos, adj, idx + 1);
        let all = triangles_from(pos, adj, idx);
        assert(all == first + rest);
        assert forall|i: int, j: int| 0 <= i < j < all.len() implies (#[trigger] all[i]).0 <= (#[trigger] all[j]).0 by {
            if j < first.len() {
                assert(all[i] == first[i] && all[j] == first[j]);
            } else if i >= first.len() {
                assert(all[i] == rest[i - first.len()] && all[j] == rest[j - first.len()]);
            } else {
                assert(all[i] == first[i] && all[j] == rest[j - first.len()]);
            }
        }
    }
}

/// The triangles come in order of their smallest vertex.
pub proof fn law_triangles_in_order(pos: Seq<Point>, adj: Seq<Seq<usize>>)
    requires
        adjacency_wf(pos, adj),
    ensures
        forall|i: int, j: int|
            0 <= i < j < all_triangles(pos, adj).len() ==> (#[trigger] all_triangles(pos, adj)[i]).0
                <= (#[trigger] all_triangles(pos, adj)[j]).0,
{
    lemma_triangles_from_ordered(pos, adj, 0);
}

/// The number of entries in the neighbour lists of the vertices from `idx`
/// on: twice the number of edges among them, for `idx == 0`.
pub open spec fn degree_sum(adj: Seq<Seq<usize>>, idx: int) -> int
    decreases adj.len() - idx,
{
    if idx < 0 || idx >= adj.len() {
        0
    } else {
        adj[idx].len() + degree_sum(adj, idx + 1)
    }
}

proof fn lemma_candidates_len(adj: Seq<Seq<usize>>, h0: usize, i: int)
    requires
        0 <= i <= adj[h0 as int].len(),
    ensures
        candidates_upto(adj, h0, i).len() <= i,
    decreases i,
{
    if i > 0 {
        lemma_candidates_len(adj, h0, i - 1);
    }
}

proof fn lemma_stack_triangles_len(pos: Seq<Point>, h0: usize, stack: Seq<(usize, usize)>)
    ensures
        stack_triangles(pos, h0, stack).len() <= stack.len(),
    decreases stack.len(),
{
    if stack.len() > 0 {
        lemma_stack_triangles_len(pos, h0, stack.drop_last());
    }
}

proof fn lemma_triangles_from_len(pos: Seq<Point>, adj: Seq<Seq<usize>>, idx: int)
    requires
        adjacency_wf(pos, adj),
        0 <= idx,
    ensures
        triangles_from(pos, adj, idx).len() <= degree_sum(adj, idx),
    decreases adj.len() - idx,
{
    if idx < adj.len() {
        lemma_triangles_from_len(pos, adj, idx + 1);
        lemma_candidates_len(adj, idx as usize, adj[idx].len() as int);
        lemma_stack_triangles_len(pos, idx as usize, candidates(adj, idx as usize));
    }
}

/// The enumeration reports at most as many triangles as there are entries in
/// the neighbour lists, twice the number of edges; so iterating ends.
pub proof fn law_triangle_count_bound(pos: Seq<Point>, adj: Seq<Seq<usize>>)
    requires
        adjacency_wf(pos, adj),
    ensures
        all_triangles(pos, adj).len() <= degree_sum(adj, 0),
{
    lemma_triangles_from_len(pos, adj, 0);
}

/// No vertex lies strictly inside the circumcircle of the triangle `t`.
pub open spec fn empty_circumcircle(pos: Seq<Point>, t: (usize, usize, usize)) -> bool {
    forall|v: int|
        0 <= v < pos.len() ==> !in_circumcircle(pos[t.0 as int], pos[t.1 as int], pos[t.2 as int], #[trigger] pos[v])
}

/// The Delaunay property: no vertex lies strictly inside the circumcircle of
/// any triangle of the subdivision.
pub open spec fn is_delaunay(pos: Seq<Point>, adj: Seq<Seq<usize>>) -> bool {
    forall|k: int| 0 <= k < all_triangles(pos, adj).len() ==> empty_circumcircle(pos, #[trigger] all_triangles(pos, adj)[k])
}

/// A point at a corner of a triangle is on its circumcircle, not inside.
proof fn lemma_corner_on_circle(a: Point, b: Point, c: Point)
    ensures
        incircle_det(a, b, c, a) == 0,
        incircle_det(a, b, c, b) == 0,
        incircle_det(a, b, c, c) == 0,
{
    assert(incircle_det(a, b, c, a) == 0) by (nonlinear_arith);
    assert(incircle_det(a, b, c, b) == 0) by (nonlinear_arith);
    assert(incircle_det(a, b, c, c) == 0) by (nonlinear_arith);
}

/// A triangulation of at most three vertices has the Delaunay property:
/// every vertex is a corner of each of its triangles.
pub proof fn law_small_triangulations_are_delaunay(pos: Seq<Point>, adj: Seq<Seq<usize>>)
    requires
        adjacency_wf(pos, adj),
        pos.len() <= 3,
    ensures
        is_delaunay(pos, adj),
{
    law_reported_triangles(pos, adj);
    let all = all_triangles(pos, adj);
    assert forall|k: int| 0 <= k < all.len() implies empty_circumcircle(pos, #[trigger] all[k]) by {
        let (a, b, c) = all[k];
        assert(is_reported_triangle(pos, adj, all[k]));
        lemma_neighbor_in_range(pos, adj, a, b);
        lemma_neighbor_in_range(pos, adj, a, c);
        if b == c {
            let q = pos[b as int];
            assert(side_of(pos[a as int], q, q) == 0) by (nonlinear_arith);
        }
        lemma_corner_on_circle(pos[a as int], pos[b as int], pos[c as int]);
        assert forall|v: int| 0 <= v < pos.len() implies !in_circumcircle(
            pos[a as int],
            pos[b as int],
            pos[c as int],
            #[trigger] pos[v],
        ) by {
            assert(v == a as int || v == b as int || v == c as int);
        }
    }
}

impl<V> DelaunayTriangulation<V> {
    /// An iterator over all triangles.
    pub fn triangles(&self) -> (it: DelaunayTriangleIterator<'_, V>)
        requires
            self.wf(),
        ensures
            it.valid(),
            it.triangulation() == *self,
            it.remaining() == all_triangles(self.s.positions(), self.s.adj()),
    {
        let it = DelaunayTriangleIterator { delaunay: self, current_index: 0, current_neighbors: Vec::new() };
        assert(it.remaining() =~= all_triangles(self.s.positions(), self.s.adj()));
        it
    }

    /// Whether the triangulation has the Delaunay property: no vertex lies
    /// strictly inside the circumcircle of any of its triangles.
    pub fn is_delaunay(&self) -> (r: bool)
        requires
            self.wf(),
        ensures
            r == is_delaunay(self.s.positions(), self.s.adj()),
    {
        let ghost pos = self.s.positions();
        let ghost adj = self.s.adj();
        let ghost all = all_triangles(pos, adj);
        let n = self.s.num_vertices();
        proof {
            law_reported_triangles(pos, adj);
        }
        let mut it = self.triangles();
        let ghost mut k: int = 0;
        loop
            invariant
                self.wf(),
                pos == self.s.positions(),
                adj == self.s.adj(),
                n == pos.len(),
                all == all_triangles(pos, adj),
                forall|j: int| 0 <= j < all.len() ==> is_reported_triangle(pos, adj, #[trigger] all[j]),
                it.valid(),
                it.triangulation() == *self,
                0 <= k <= all.len(),
                it.remaining() == all.subrange(k, all.len() as int),
                forall|j: int| 0 <= j < k ==> empty_circumcircle(pos, #[trigger] all[j]),
            decreases all.len() - k,
        {
            let ghost before = it.remaining();
            match it.next() {
                None => {
                    assert(all.len() - k == 0);
                    return true;
                },
                Some(t) => {
                    assert(before[0] == all[k]);
                    let a = t.0[0];
                    let b = t.0[1];
                    let c = t.0[2];
                    proof {
                        assert(is_reported_triangle(pos, adj, all[k]));
                        lemma_neighbor_in_range(pos, adj, a, b);
                        lemma_neighbor_in_range(pos, adj, a, c);
                    }
                    let pa = self.s.position(a);
                    let pb = self.s.position(b);
                    let pc = self.s.position(c);
                    let mut v: usize = 0;
                    while v < n
                        invariant
                            self.wf(),
                            pos == self.s.positions(),
                            n == pos.len(),
                            v <= n,
                            (a as int) < n && (b as int) < n && (c as int) < n,
                            in_range(pa) && in_range(pb) && in_range(pc),
                            pa == pos[a as int],
                            pb == pos[b as int],
                            pc == pos[c as int],
                            0 <= k < all.len(),
                            adj == self.s.adj(),
                            all == all_triangles(pos, adj),
                            all[k] == (a, b, c),
                            forall|u: int| 0 <= u < v ==> !in_circumcircle(pa, pb, pc, #[trigger] pos[u]),
                        decreases n - v,
                    {
                        let q = self.s.position(v);
                        proof {
                            law_incircle_symmetry(pa, pc, pb, q);
                            law_incircle_symmetry(pc, pb, pa, q);
                            law_incircle_symmetry(pa, pb, pc, q);
                        }
                        if contained_in_circumference(pa, pc, pb, q) {
                            assert(in_circumcircle(pa, pb, pc, pos[v as int]));
                            assert(!empty_circumcircle(pos, all[k]));
                            return false;
                        }
                        v = v + 1;
                    }
                    assert(all.subrange(k + 1, all.len() as int) =~= before.drop_first());
                    proof {
                        k = k + 1;
                    }
                },
            }
        }
    }
}

} // verus!
