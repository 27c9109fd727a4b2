//! A planar subdivision: vertices at distinct integer positions and, for each
//! vertex, the list of its neighbours ordered counterclockwise by direction.
use vstd::prelude::*;
use crate::geometry::{in_range, Point};

verus! {

/// `w` is a neighbour of `v` in `adj`.
pub open spec fn adjacent(adj: Seq<Seq<usize>>, v: usize, w: usize) -> bool {
    (v as int) < adj.len() && adj[v as int].contains(w)
}

/// Structural invariant of a subdivision given by its positions and
/// neighbour lists: one list per vertex, every listed neighbour is another
/// existing vertex, no list repeats a vertex, edges are undirected, and every
/// position is within the coordinate limit.
pub open spec fn adjacency_wf(pos: Seq<Point>, adj: Seq<Seq<usize>>) -> bool {
    &&& adj.len() == pos.len()
    &&& pos.len() <= usize::MAX
    &&& forall|v: int, i: int|
        0 <= v < adj.len() && 0 <= i < adj[v].len() ==> (#[trigger] adj[v][i] as int) < adj.len()
            && adj[v][i] as int != v
    &&& forall|v: int| 0 <= v < adj.len() ==> (#[trigger] adj[v]).no_duplicates()
    &&& forall|v: usize, w: usize| #[trigger] adjacent(adj, v, w) ==> adjacent(adj, w, v)
    &&& forall|v: int| 0 <= v < pos.len() ==> in_range(#[trigger] pos[v])
}

/// Which half of the plane a nonzero direction points into: `0` for
/// directions in `[0, pi)` measured from the positive x axis, `1` otherwise.
pub open spec fn half_plane(dx: int, dy: int) -> int {
    if dy > 0 || (dy == 0 && dx > 0) {
        0
    } else {
        1
    }
}

/// Seen from `c`, the direction towards `u` comes strictly before the
/// direction towards `w` in counterclockwise order starting at the positive
/// x axis.
pub open spec fn angle_before(c: Point, u: Point, w: Point) -> bool {
    let ux = u.x - c.x;
    let uy = u.y - c.y;
    let wx = w.x - c.x;
    let wy = w.y - c.y;
    half_plane(ux, uy) < half_plane(wx, wy) || (half_plane(ux, uy) == half_plane(wx, wy) && ux
        * wy - uy * wx > 0)
}

/// The neighbours `l` of `c` are ordered counterclockwise by direction,
/// starting from the positive x axis.
pub open spec fn sorted_around(pos: Seq<Point>, c: usize, l: Seq<usize>) -> bool {
    forall|i: int, j: int|
        #![trigger l[i], l[j]]
        0 <= i < j < l.len() ==> !angle_before(pos[c as int], pos[l[j] as int], pos[l[i] as int])
}

/// Every neighbour list is ordered counterclockwise.
pub open spec fn ccw_sorted(pos: Seq<Point>, adj: Seq<Seq<usize>>) -> bool {
    forall|v: int| 0 <= v < adj.len() ==> sorted_around(pos, v as usize, #[trigger] adj[v])
}

proof fn lemma_half_zero_trans(ux: int, uy: int, vx: int, vy: int, wx: int, wy: int)
    requires
        uy > 0 || (uy == 0 && ux > 0),
        vy > 0 || (vy == 0 && vx > 0),
        wy > 0 || (wy == 0 && wx > 0),
        ux * vy - uy * vx > 0,
        vx * wy - vy * wx > 0,
    ensures
        ux * wy - uy * wx > 0,
{
    let a = ux * vy - uy * vx;
    let b = vx * wy - vy * wx;
    let c = ux * wy - uy * wx;
    assert(vy * c == a * wy + b * uy) by (nonlinear_arith)
        requires
            a == ux * vy - uy * vx,
            b == vx * wy - vy * wx,
            c == ux * wy - uy * wx,
    ;
    if vy == 0 {
        assert(a == -(uy * vx)) by (nonlinear_arith)
            requires
                vy == 0,
                a == ux * vy - uy * vx,
        ;
        assert(uy * vx >= 0) by (nonlinear_arith)
            requires
                uy >= 0,
                vx > 0,
        ;
    } else {
        assert(a * wy >= 0) by (nonlinear_arith)
            requires
                a > 0,
                wy >= 0,
        ;
        assert(b * uy >= 0) by (nonlinear_arith)
            requires
                b > 0,
                uy >= 0,
        ;
        assert(c >= 0) by (nonlinear_arith)
            requires
                vy > 0,
                vy * c >= 0,
        ;
        if c == 0 {
            assert(a * wy + b * uy == 0) by (nonlinear_arith)
                requires
                    vy * c == a * wy + b * uy,
                    c == 0,
            ;
            assert(wy == 0) by (nonlinear_arith)
                requires
                    a * wy >= 0,
                    b * uy >= 0,
                    a * wy + b * uy == 0,
                    a > 0,
                    wy >= 0,
            ;
            assert(b == -(vy * wx)) by (nonlinear_arith)
                requires
                    wy == 0,
                    b == vx * wy - vy * wx,
            ;
            assert(vy * wx > 0) by (nonlinear_arith)
                requires
                    vy > 0,
                    wx > 0,
            ;
        }
    }
}

/// Direction order around a point is a strict order: it is transitive.
pub proof fn lemma_angle_before_transitive(c: Point, u: Point, v: Point, w: Point)
    requires
        angle_before(c, u, v),
        angle_before(c, v, w),
    ensures
        angle_before(c, u, w),
{
    let ux = u.x - c.x;
    let uy = u.y - c.y;
    let vx = v.x - c.x;
    let vy = v.y - c.y;
    let wx = w.x - c.x;
    let wy = w.y - c.y;
    if half_plane(ux, uy) == half_plane(wx, wy) {
        assert(half_plane(vx, vy) == half_plane(ux, uy));
        if half_plane(ux, uy) == 0 {
            lemma_half_zero_trans(ux, uy, vx, vy, wx, wy);
        } else {
            assert(ux * vy - uy * vx > 0);
            assert(vx * wy - vy * wx > 0);
            assert(!(ux == 0 && uy == 0)) by (nonlinear_arith)
                requires
                    ux * vy - uy * vx > 0,
            ;
            assert(!(wx == 0 && wy == 0)) by (nonlinear_arith)
                requires
                    vx * wy - vy * wx > 0,
            ;
            assert(!(vx == 0 && vy == 0)) by (nonlinear_arith)
                requires
                    vx * wy - vy * wx > 0,
            ;
            assert((-ux) * (-vy) - (-uy) * (-vx) == ux * vy - uy * vx) by (nonlinear_arith);
            assert((-vx) * (-wy) - (-vy) * (-wx) == vx * wy - vy * wx) by (nonlinear_arith);
            assert((-ux) * (-wy) - (-uy) * (-wx) == ux * wy - uy * wx) by (nonlinear_arith);
            lemma_half_zero_trans(-ux, -uy, -vx, -vy, -wx, -wy);
        }
    }
}

proof fn lemma_insert_index_from_props(pos: Seq<Point>, c: usize, l: Seq<usize>, b: usize, from: int)
    requires
        0 <= from <= l.len(),
    ensures
        forall|i: int|
            from <= i < insert_index_from(pos, c, l, b, from) ==> !angle_before(
                pos[c as int],
                pos[b as int],
                #[trigger] pos[l[i] as int],
            ),
        insert_index_from(pos, c, l, b, from) < l.len() ==> angle_before(
            pos[c as int],
            pos[b as int],
            pos[l[insert_index_from(pos, c, l, b, from)] as int],
        ),
    decreases l.len() - from,
{
    if from < l.len() {
        lemma_insert_index_from_props(pos, c, l, b, from + 1);
    }
}

/// Placing `b` at its insertion index keeps a sorted list sorted.
proof fn lemma_insert_sorted(pos: Seq<Point>, c: usize, l: Seq<usize>, b: usize)
    requires
        sorted_around(pos, c, l),
    ensures
        sorted_around(pos, c, l.insert(insert_index(pos, c, l, b), b)),
{
    let k = insert_index(pos, c, l, b);
    lemma_insert_index_from_bounds(pos, c, l, b, 0);
    lemma_insert_index_from_props(pos, c, l, b, 0);
    let t = l.insert(k, b);
    l.insert_ensures(k, b);
    let pc = pos[c as int];
    assert forall|i: int, j: int| #![trigger t[i], t[j]] 0 <= i < j < t.len() implies !angle_before(
        pc,
        pos[t[j] as int],
        pos[t[i] as int],
    ) by {
        if j < k {
            assert(t[i] == l[i] && t[j] == l[j]);
        } else if j == k {
            assert(t[i] == l[i]);
        } else if i == k {
            assert(t[j] == l[j - 1]);
            assert(t[i] == b);
            if angle_before(pc, pos[l[j - 1] as int], pos[b as int]) {
                assert(k < l.len());
                lemma_angle_before_transitive(pc, pos[l[j - 1] as int], pos[b as int], pos[l[k] as int]);
                if k < j - 1 {
                    assert(!angle_before(pc, pos[l[j - 1] as int], pos[l[k] as int]));
                }
            }
        } else if i < k {
            assert(t[i] == l[i] && t[j] == l[j - 1]);
        } else {
            assert(t[i] == l[i - 1] && t[j] == l[j - 1]);
        }
    }
}

/// Removing an entry keeps a sorted list sorted.
proof fn lemma_remove_sorted(pos: Seq<Point>, c: usize, l: Seq<usize>, k: int)
    requires
        sorted_around(pos, c, l),
        0 <= k < l.len(),
    ensures
        sorted_around(pos, c, l.remove(k)),
{
    let t = l.remove(k);
    l.remove_ensures(k);
    assert forall|i: int, j: int| #![trigger t[i], t[j]] 0 <= i < j < t.len() implies !angle_before(
        pos[c as int],
        pos[t[j] as int],
        pos[t[i] as int],
    ) by {
        let si = if i < k { i } else { i + 1 };
        let sj = if j < k { j } else { j + 1 };
        assert(t[i] == l[si] && t[j] == l[sj]);
    }
}

/// The first index `i >= from` of `l` whose vertex comes after `b` around
/// `c`, or the length of `l` if there is none.
pub open spec fn insert_index_from(pos: Seq<Point>, c: usize, l: Seq<usize>, b: usize, from: int) -> int
    decreases l.len() - from,
{
    if from >= l.len() {
        l.len() as int
    } else if angle_before(pos[c as int], pos[b as int], pos[l[from] as int]) {
        from
    } else {
        insert_index_from(pos, c, l, b, from + 1)
    }
}

/// Where `b` is placed in the neighbour list `l` of `c`: before the first
/// neighbour whose direction comes after that of `b`.
pub open spec fn insert_index(pos: Seq<Point>, c: usize, l: Seq<usize>, b: usize) -> int {
    insert_index_from(pos, c, l, b, 0)
}

/// The neighbour lists after connecting `a` and `b`.
pub open spec fn add_edge(pos: Seq<Point>, adj: Seq<Seq<usize>>, a: usize, b: usize) -> Seq<Seq<usize>> {
    let la = adj[a as int].insert(insert_index(pos, a, adj[a as int], b), b);
    let adj1 = adj.update(a as int, la);
    let lb = adj1[b as int].insert(insert_index(pos, b, adj1[b as int], a), a);
    adj1.update(b as int, lb)
}

/// The neighbour lists after disconnecting `a` and `b`.
pub open spec fn remove_edge(adj: Seq<Seq<usize>>, a: usize, b: usize) -> Seq<Seq<usize>> {
    let adj1 = adj.update(a as int, adj[a as int].remove(adj[a as int].index_of(b)));
    adj1.update(b as int, adj1[b as int].remove(adj1[b as int].index_of(a)))
}

/// The neighbour of `from` that precedes `to` in the cyclic counterclockwise
/// order around `from`: the edge `from -> to` turned clockwise.
pub open spec fn cw_neighbor(adj: Seq<Seq<usize>>, from: usize, to: usize) -> usize {
    let l = adj[from as int];
    let i = l.index_of(to);
    if i == 0 {
        l[l.len() - 1]
    } else {
        l[i - 1]
    }
}

/// The neighbour of `from` that follows `to` in the cyclic counterclockwise
/// order around `from`: the edge `from -> to` turned counterclockwise.
pub open spec fn ccw_neighbor(adj: Seq<Seq<usize>>, from: usize, to: usize) -> usize {
    let l = adj[from as int];
    let i = l.index_of(to);
    if i + 1 == l.len() {
        l[0]
    } else {
        l[i + 1]
    }
}

/// The edge `from - to` can be flipped: it has a neighbour on each side
/// around `from` (`c` clockwise, `d` counterclockwise), these two are
/// distinct, not yet connected, and both are neighbours of `to` as well, so
/// that `from`, `c`, `to`, `d` bound two triangles sharing the edge.
pub open spec fn flippable(adj: Seq<Seq<usize>>, from: usize, to: usize) -> bool {
    let c = cw_neighbor(adj, from, to);
    let d = ccw_neighbor(adj, from, to);
    &&& adjacent(adj, from, to)
    &&& c != d
    &&& !adjacent(adj, c, d)
    &&& adjacent(adj, to, c)
    &&& adjacent(adj, to, d)
}

proof fn lemma_insert_contains<A>(s: Seq<A>, i: int, x: A)
    requires
        0 <= i <= s.len(),
    ensures
        forall|y: A| #[trigger] s.insert(i, x).contains(y) <==> (s.contains(y) || y == x),
        s.insert(i, x).len() == s.len() + 1,
{
    s.insert_ensures(i, x);
    let t = s.insert(i, x);
    assert forall|y: A| #[trigger] t.contains(y) <==> (s.contains(y) || y == x) by {
        if t.contains(y) {
            let k = choose|k: int| 0 <= k < t.len() && t[k] == y;
            if k < i {
                assert(s[k] == y);
            } else if k > i {
                assert(s[k - 1] == y);
            }
        }
        if s.contains(y) {
            let k = choose|k: int| 0 <= k < s.len() && s[k] == y;
            if k < i {
                assert(t[k] == y);
            } else {
                assert(t[k + 1] == y);
            }
        }
        if y == x {
            assert(t[i] == y);
        }
    }
}

proof fn lemma_insert_no_duplicates<A>(s: Seq<A>, i: int, x: A)
    requires
        0 <= i <= s.len(),
        s.no_duplicates(),
        !s.contains(x),
    ensures
        s.insert(i, x).no_duplicates(),
{
    s.insert_ensures(i, x);
    let t = s.insert(i, x);
    assert forall|j: int, k: int| 0 <= j < t.len() && 0 <= k < t.len() && j != k implies t[j] != t[k] by {
        let sj = if j < i { j } else { j - 1 };
        let sk = if k < i { k } else { k - 1 };
        if j == i {
            assert(t[k] == s[sk]);
        } else if k == i {
            assert(t[j] == s[sj]);
        } else {
            assert(t[j] == s[sj]);
            assert(t[k] == s[sk]);
        }
    }
}

proof fn lemma_remove_contains<A>(s: Seq<A>, i: int)
    requires
        0 <= i < s.len(),
        s.no_duplicates(),
    ensures
        forall|y: A| #[trigger] s.remove(i).contains(y) <==> (s.contains(y) && y != s[i]),
        s.remove(i).no_duplicates(),
        s.remove(i).len() == s.len() - 1,
{
    s.remove_ensures(i);
    let t = s.remove(i);
    assert forall|y: A| #[trigger] t.contains(y) <==> (s.contains(y) && y != s[i]) by {
        if t.contains(y) {
            let k = choose|k: int| 0 <= k < t.len() && t[k] == y;
            if k < i {
                assert(s[k] == y);
            } else {
                assert(s[k + 1] == y);
            }
        }
        if s.contains(y) && y != s[i] {
            let k = choose|k: int| 0 <= k < s.len() && s[k] == y;
            if k < i {
                assert(t[k] == y);
            } else {
                assert(k != i);
                assert(t[k - 1] == y);
            }
        }
    }
    assert forall|j: int, k: int| 0 <= j < t.len() && 0 <= k < t.len() && j != k implies t[j] != t[k] by {
        let sj = if j < i { j } else { j + 1 };
        let sk = if k < i { k } else { k + 1 };
        assert(t[j] == s[sj]);
        assert(t[k] == s[sk]);
    }
}

/// A neighbour of a vertex is another existing vertex.
pub proof fn lemma_neighbor_in_range(pos: Seq<Point>, adj: Seq<Seq<usize>>, v: usize, w: usize)
    requires
        adjacency_wf(pos, adj),
        adjacent(adj, v, w),
    ensures
        (v as int) < adj.len(),
        (w as int) < adj.len(),
        v != w,
{
    let k = adj[v as int].index_of(w);
    assert(adj[v as int][k] == w);
}

/// The neighbour of `center` reached by turning `k` times clockwise around
/// `center`, starting from the neighbour `from`.
pub open spec fn cw_turn(adj: Seq<Seq<usize>>, center: usize, from: usize, k: nat) -> usize
    decreases k,
{
    if k == 0 {
        from
    } else {
        cw_neighbor(adj, center, cw_turn(adj, center, from, (k - 1) as nat))
    }
}

/// Turning clockwise around a vertex stays among its neighbours.
pub proof fn lemma_cw_neighbor_adjacent(pos: Seq<Point>, adj: Seq<Seq<usize>>, from: usize, to: usize)
    requires
        adjacency_wf(pos, adj),
        adjacent(adj, from, to),
    ensures
        adjacent(adj, from, cw_neighbor(adj, from, to)),
{
    let l = adj[from as int];
    let i = l.index_of(to);
    assert(l[i] == to);
    if i == 0 {
        assert(l.contains(l[l.len() - 1]));
    } else {
        assert(l.contains(l[i - 1]));
    }
}

/// In a list without duplicates, `index_of` finds the one position holding
/// the value.
pub proof fn lemma_index_of_unique(l: Seq<usize>, i: int)
    requires
        l.no_duplicates(),
        0 <= i < l.len(),
    ensures
        l.index_of(l[i]) == i,
{
    assert(l.contains(l[i]));
}

proof fn lemma_insert_index_from_bounds(pos: Seq<Point>, c: usize, l: Seq<usize>, b: usize, from: int)
    requires
        0 <= from <= l.len(),
    ensures
        from <= insert_index_from(pos, c, l, b, from) <= l.len(),
    decreases l.len() - from,
{
    if from < l.len() {
        lemma_insert_index_from_bounds(pos, c, l, b, from + 1);
    }
}

/// Adding an edge keeps the structure and adds exactly that edge.
pub proof fn lemma_add_edge_wf(pos: Seq<Point>, adj: Seq<Seq<usize>>, a: usize, b: usize)
    requires
        adjacency_wf(pos, adj),
        a < adj.len(),
        b < adj.len(),
        a != b,
        !adjacent(adj, a, b),
    ensures
        adjacency_wf(pos, add_edge(pos, adj, a, b)),
        forall|v: usize, w: usize| #[trigger]
            adjacent(add_edge(pos, adj, a, b), v, w) <==> (adjacent(adj, v, w) || (v == a && w == b)
                || (v == b && w == a)),
{
    let ia = insert_index(pos, a, adj[a as int], b);
    lemma_insert_index_from_bounds(pos, a, adj[a as int], b, 0);
    let la = adj[a as int].insert(ia, b);
    let adj1 = adj.update(a as int, la);
    lemma_insert_contains(adj[a as int], ia, b);
    lemma_insert_no_duplicates(adj[a as int], ia, b);
    assert(!adjacent(adj, b, a));
    let ib = insert_index(pos, b, adj1[b as int], a);
    lemma_insert_index_from_bounds(pos, b, adj1[b as int], a, 0);
    let lb = adj1[b as int].insert(ib, a);
    lemma_insert_contains(adj[b as int], ib, a);
    lemma_insert_no_duplicates(adj[b as int], ib, a);
    let adj2 = adj1.update(b as int, lb);
    assert(adj2 == add_edge(pos, adj, a, b));
    assert forall|v: usize, w: usize| #[trigger]
        adjacent(adj2, v, w) <==> (adjacent(adj, v, w) || (v == a && w == b) || (v == b && w == a)) by {
        if v == a {
            assert(adj2[v as int] == la);
        } else if v == b {
            assert(adj2[v as int] == lb);
        } else if (v as int) < adj.len() {
            assert(adj2[v as int] == adj[v as int]);
        }
    }
    assert forall|v: int, i: int| 0 <= v < adj2.len() && 0 <= i < adj2[v].len() implies (
    #[trigger] adj2[v][i] as int) < adj2.len() && adj2[v][i] as int != v by {
        let x = adj2[v][i];
        assert(adj2[v].contains(x));
        if v == a as int {
            assert(adj2[v] == la);
            if x != b {
                assert(adj[v].contains(x));
                let k = choose|k: int| 0 <= k < adj[v].len() && adj[v][k] == x;
                assert(adj[v][k] == x);
            }
        } else if v == b as int {
            assert(adj2[v] == lb);
            if x != a {
                assert(adj[v].contains(x));
                let k = choose|k: int| 0 <= k < adj[v].len() && adj[v][k] == x;
                assert(adj[v][k] == x);
            }
        } else {
            assert(adj2[v] == adj[v]);
        }
    }
    assert forall|v: int| 0 <= v < adj2.len() implies (#[trigger] adj2[v]).no_duplicates() by {
        if v != a && v != b {
            assert(adj2[v] == adj[v]);
        }
    }
}

/// Removing an edge keeps the structure and removes exactly that edge.
pub proof fn lemma_remove_edge_wf(pos: Seq<Point>, adj: Seq<Seq<usize>>, a: usize, b: usize)
    requires
        adjacency_wf(pos, adj),
        adjacent(adj, a, b),
    ensures
        adjacency_wf(pos, remove_edge(adj, a, b)),
        forall|v: usize, w: usize| #[trigger]
            adjacent(remove_edge(adj, a, b), v, w) <==> (adjacent(adj, v, w) && !(v == a && w == b)
                && !(v == b && w == a)),
{
    assert(adjacent(adj, b, a));
    let ia = adj[a as int].index_of(b);
    let k = choose|k: int| 0 <= k < adj[a as int].len() && adj[a as int][k] == b;
    assert(adj[a as int][k] == b);
    assert(0 <= ia < adj[a as int].len() && adj[a as int][ia] == b);
    assert(a != b);
    assert((b as int) < adj.len());
    let la = adj[a as int].remove(ia);
    lemma_remove_contains(adj[a as int], ia);
    let adj1 = adj.update(a as int, la);
    assert(adj1[b as int] == adj[b as int]);
    let ib = adj[b as int].index_of(a);
    let k2 = choose|k: int| 0 <= k < adj[b as int].len() && adj[b as int][k] == a;
    assert(adj[b as int][k2] == a);
    assert(0 <= ib < adj[b as int].len() && adj[b as int][ib] == a);
    let lb = adj[b as int].remove(ib);
    lemma_remove_contains(adj[b as int], ib);
    let adj2 = adj1.update(b as int, lb);
    assert(adj2 == remove_edge(adj, a, b));
    assert forall|v: usize, w: usize| #[trigger]
        adjacent(adj2, v, w) <==> (adjacent(adj, v, w) && !(v == a && w == b) && !(v == b && w == a)) by {
        if v == a {
            assert(adj2[v as int] == la);
        } else if v == b {
            assert(adj2[v as int] == lb);
        } else if (v as int) < adj.len() {
            assert(adj2[v as int] == adj[v as int]);
        }
    }
    assert forall|v: int, i: int| 0 <= v < adj2.len() && 0 <= i < adj2[v].len() implies (
    #[trigger] adj2[v][i] as int) < adj2.len() && adj2[v][i] as int != v by {
        let x = adj2[v][i];
        assert(adj2[v].contains(x));
        if v == a as int {
            assert(adj2[v] == la);
        } else if v == b as int {
            assert(adj2[v] == lb);
        } else {
            assert(adj2[v] == adj[v]);
        }
        assert(adj[v].contains(x));
        let k = choose|k: int| 0 <= k < adj[v].len() && adj[v][k] == x;
        assert(adj[v][k] == x);
    }
    assert forall|v: int| 0 <= v < adj2.len() implies (#[trigger] adj2[v]).no_duplicates() by {
        if v != a && v != b {
            assert(adj2[v] == adj[v]);
        }
    }
}

/// A vertex has at most one neighbour per other vertex.
pub proof fn lemma_degree_bound(pos: Seq<Point>, adj: Seq<Seq<usize>>, v: int)
    requires
        adjacency_wf(pos, adj),
        0 <= v < adj.len(),
    ensures
        adj[v].len() <= adj.len() - 1,
{
    let l = adj[v];
    let m = l.map_values(|x: usize| x as int);
    assert forall|i: int, j: int| 0 <= i < m.len() && 0 <= j < m.len() && i != j implies m[i] != m[j] by {
        assert(l[i] != l[j]);
    }
    assert(m.no_duplicates());
    m.unique_seq_to_set();
    let t = vstd::set_lib::set_int_range(0, adj.len() as int).remove(v);
    vstd::set_lib::lemma_int_range(0, adj.len() as int);
    assert forall|x: int| m.to_set().contains(x) implies t.contains(x) by {
        let i = choose|i: int| 0 <= i < m.len() && m[i] == x;
        assert(m[i] == l[i] as int);
        assert((l[i] as int) < adj.len() && l[i] as int != v);
    }
    vstd::set_lib::lemma_len_subset(m.to_set(), t);
}

/// Vertices with positions, a value of type `V` each, and counterclockwise
/// neighbour lists.
pub struct PlanarSubdivision<V> {
    vertices: Vec<Point>,
    data: Vec<V>,
    neighbors: Vec<Vec<usize>>,
}

impl<V> PlanarSubdivision<V> {
    /// The vertex positions, indexed by vertex handle.
    pub closed spec fn positions(&self) -> Seq<Point> {
        self.vertices@
    }

    /// The neighbour lists, indexed by vertex handle.
    pub closed spec fn adj(&self) -> Seq<Seq<usize>> {
        self.neighbors@.map_values(|l: Vec<usize>| l@)
    }

    /// The values stored at the vertices, indexed by vertex handle.
    pub closed spec fn data(&self) -> Seq<V> {
        self.data@
    }

    /// The structural invariant.
    pub open spec fn wf(&self) -> bool {
        &&& adjacency_wf(self.positions(), self.adj())
        &&& self.data().len() == self.positions().len()
    }

    /// An empty subdivision.
    pub fn new() -> (s: Self)
        ensures
            s.wf(),
            s.positions() == Seq::<Point>::empty(),
            s.adj() == Seq::<Seq<usize>>::empty(),
            s.data() == Seq::<V>::empty(),
    {
        let s = PlanarSubdivision { vertices: Vec::new(), data: Vec::new(), neighbors: Vec::new() };
        assert(s.adj() =~= Seq::<Seq<usize>>::empty());
        s
    }

    /// Number of vertices.
    pub fn num_vertices(&self) -> (n: usize)
        ensures
            n == self.positions().len(),
    {
        self.vertices.len()
    }

    /// Position of vertex `v`.
    pub fn position(&self, v: usize) -> (p: Point)
        requires
            v < self.positions().len(),
        ensures
            p == self.positions()[v as int],
    {
        self.vertices[v]
    }

    /// The value stored at vertex `v`.
    pub fn vertex_data(&self, v: usize) -> (r: &V)
        requires
            self.wf(),
            v < self.positions().len(),
        ensures
            *r == self.data()[v as int],
    {
        &self.data[v]
    }

    /// The neighbours of `v` in counterclockwise order.
    pub fn neighbors(&self, v: usize) -> (l: &Vec<usize>)
        requires
            self.wf(),
            v < self.positions().len(),
        ensures
            l@ == self.adj()[v as int],
    {
        &self.neighbors[v]
    }

    /// Adds a vertex at `p` holding `value`, without neighbours, and returns
    /// its handle.
    pub fn insert_vertex(&mut self, p: Point, value: V) -> (h: usize)
        requires
            old(self).wf(),
            in_range(p),
            old(self).positions().len() < usize::MAX,
        ensures
            final(self).wf(),
            h == old(self).positions().len(),
            final(self).positions() == old(self).positions().push(p),
            final(self).adj() == old(self).adj().push(Seq::<usize>::empty()),
            final(self).data() == old(self).data().push(value),
            ccw_sorted(old(self).positions(), old(self).adj()) ==> ccw_sorted(final(self).positions(), final(self).adj()),
    {
        let h = self.vertices.len();
        self.vertices.push(p);
        self.data.push(value);
        self.neighbors.push(Vec::new());
        proof {
            let oa = old(self).adj();
            assert(self.adj() =~= oa.push(Seq::<usize>::empty()));
            let adj = self.adj();
            assert forall|v: usize, w: usize| #[trigger] adjacent(adj, v, w) implies adjacent(adj, w, v) by {
                if (v as int) < oa.len() {
                    assert(adj[v as int] == oa[v as int]);
                    assert(adjacent(oa, v, w));
                    assert(adjacent(oa, w, v));
                    assert(adj[w as int] == oa[w as int]);
                }
            }
            assert forall|v: int, i: int| 0 <= v < adj.len() && 0 <= i < adj[v].len() implies (
            #[trigger] adj[v][i] as int) < adj.len() && adj[v][i] as int != v by {
                assert(v < oa.len());
                assert(adj[v] == oa[v]);
            }
            assert forall|v: int| 0 <= v < adj.len() implies (#[trigger] adj[v]).no_duplicates() by {
                if v < oa.len() {
                    assert(adj[v] == oa[v]);
                }
            }
            if ccw_sorted(old(self).positions(), oa) {
                let op = old(self).positions();
                let np = self.positions();
                assert forall|v: int| 0 <= v < adj.len() implies sorted_around(np, v as usize, #[trigger] adj[v]) by {
                    if v < oa.len() {
                        assert(adj[v] == oa[v]);
                        assert(sorted_around(op, v as usize, oa[v]));
                        let l = oa[v];
                        assert forall|i: int, j: int| #![trigger l[i], l[j]] 0 <= i < j < l.len() implies !angle_before(
                            np[v],
                            np[l[j] as int],
                            np[l[i] as int],
                        ) by {
                            assert((l[i] as int) < oa.len());
                            assert((l[j] as int) < oa.len());
                        }
                    }
                }
            }
        }
        h
    }

    /// Replaces the value stored at vertex `v` by `value`.
    pub fn update_vertex(&mut self, v: usize, value: V)
        requires
            old(self).wf(),
            v < old(self).positions().len(),
        ensures
            final(self).wf(),
            final(self).positions() == old(self).positions(),
            final(self).adj() == old(self).adj(),
            final(self).data() == old(self).data().update(v as int, value),
    {
        self.data.set(v, value);
    }

    /// Index of `x` in `l`.
    fn find(l: &Vec<usize>, x: usize) -> (i: usize)
        requires
            l@.contains(x),
            l@.no_duplicates(),
        ensures
            i < l@.len(),
            l@[i as int] == x,
            i as int == l@.index_of(x),
    {
        let mut i: usize = 0;
        while i < l.len()
            invariant
                i <= l@.len(),
                forall|j: int| 0 <= j < i ==> l@[j] != x,
                l@.contains(x),
                l@.no_duplicates(),
            decreases l@.len() - i,
        {
            if l[i] == x {
                proof {
                    lemma_index_of_unique(l@, i as int);
                }
                return i;
            }
            i = i + 1;
        }
        proof {
            let k = choose|k: int| 0 <= k < l@.len() && l@[k] == x;
            assert(l@[k] == x);
        }
        0
    }

    /// Whether `a` and `b` are connected.
    pub fn is_connected(&self, a: usize, b: usize) -> (r: bool)
        requires
            self.wf(),
            a < self.positions().len(),
        ensures
            r == adjacent(self.adj(), a, b),
    {
        let l = &self.neighbors[a];
        let mut i: usize = 0;
        while i < l.len()
            invariant
                i <= l@.len(),
                self.wf(),
                a < self.positions().len(),
                l@ == self.adj()[a as int],
                forall|j: int| 0 <= j < i ==> l@[j] != b,
            decreases l@.len() - i,
        {
            if l[i] == b {
                assert(l@[i as int] == b);
                assert(self.adj()[a as int].contains(b));
                return true;
            }
            i = i + 1;
        }
        false
    }

    /// Direction order around `c`, computed exactly.
    fn angle_before_exec(c: Point, u: Point, w: Point) -> (r: bool)
        requires
            in_range(c),
            in_range(u),
            in_range(w),
        ensures
            r == angle_before(c, u, w),
    {
        let ux = u.x as i128 - c.x as i128;
        let uy = u.y as i128 - c.y as i128;
        let wx = w.x as i128 - c.x as i128;
        let wy = w.y as i128 - c.y as i128;
        let hu: u8 = if uy > 0 || (uy == 0 && ux > 0) { 0 } else { 1 };
        let hw: u8 = if wy > 0 || (wy == 0 && wx > 0) { 0 } else { 1 };
        if hu < hw {
            return true;
        }
        if hu > hw {
            return false;
        }
        let cross = crate::geometry::signed_side(c, u, w);
        cross > 0
    }

    /// Where `b` goes in the neighbour list of `c`.
    fn ccw_insert_index(&self, c: usize, b: usize) -> (i: usize)
        requires
            self.adj().len() == self.positions().len(),
            forall|v: int| 0 <= v < self.positions().len() ==> in_range(#[trigger] self.positions()[v]),
            forall|j: int| 0 <= j < self.adj()[c as int].len() ==> (#[trigger] self.adj()[c as int][j] as int)
                < self.positions().len(),
            c < self.positions().len(),
            b < self.positions().len(),
        ensures
            i as int == insert_index(self.positions(), c, self.adj()[c as int], b),
            i <= self.adj()[c as int].len(),
    {
        let l = &self.neighbors[c];
        let pc = self.vertices[c];
        let pb = self.vertices[b];
        let mut i: usize = 0;
        while i < l.len()
            invariant
                self.adj().len() == self.positions().len(),
                forall|v: int| 0 <= v < self.positions().len() ==> in_range(#[trigger] self.positions()[v]),
                forall|j: int| 0 <= j < self.adj()[c as int].len() ==> (#[trigger] self.adj()[c as int][j] as int)
                    < self.positions().len(),
                c < self.positions().len(),
                b < self.positions().len(),
                l@ == self.adj()[c as int],
                pc == self.positions()[c as int],
                pb == self.positions()[b as int],
                i <= l@.len(),
                insert_index_from(self.positions(), c, l@, b, i as int) == insert_index(
                    self.positions(),
                    c,
                    l@,
                    b,
                ),
            decreases l@.len() - i,
        {
            let w = l[i];
            assert(self.adj()[c as int][i as int] == w);
            let pw = self.vertices[w];
            if Self::angle_before_exec(pc, pb, pw) {
                return i;
            }
            i = i + 1;
        }
        i
    }

    /// Connects `a` and `b`, placing each in the other's list at its
    /// counterclockwise position; does nothing if they are connected already.
    pub fn connect(&mut self, a: usize, b: usize)
        requires
            old(self).wf(),
            a < old(self).positions().len(),
            b < old(self).positions().len(),
            a != b,
        ensures
            final(self).wf(),
            final(self).positions() == old(self).positions(),
            final(self).data() == old(self).data(),
            final(self).adj() == if adjacent(old(self).adj(), a, b) {
                old(self).adj()
            } else {
                add_edge(old(self).positions(), old(self).adj(), a, b)
            },
            forall|v: usize, w: usize| #[trigger]
                adjacent(final(self).adj(), v, w) <==> (adjacent(old(self).adj(), v, w) || (v == a
                    && w == b) || (v == b && w == a)),
            ccw_sorted(old(self).positions(), old(self).adj()) ==> ccw_sorted(final(self).positions(), final(self).adj()),
    {
        if self.is_connected(a, b) {
            proof {
                assert(adjacent(self.adj(), b, a));
            }
            return;
        }
        proof {
            lemma_add_edge_wf(self.positions(), self.adj(), a, b);
        }
        let ghost pos = self.positions();
        let ghost adj0 = self.adj();
        let ia = self.ccw_insert_index(a, b);
        self.neighbors[a].insert(ia, b);
        let ghost adj1 = adj0.update(a as int, adj0[a as int].insert(ia as int, b));
        assert(self.adj() =~= adj1);
        assert(self.positions() == pos);
        assert(self.adj()[b as int] == adj0[b as int]);
        let ib = self.ccw_insert_index(b, a);
        self.neighbors[b].insert(ib, a);
        assert(self.adj() =~= add_edge(pos, adj0, a, b));
        proof {
            if ccw_sorted(pos, adj0) {
                lemma_insert_sorted(pos, a, adj0[a as int], b);
                lemma_insert_sorted(pos, b, adj0[b as int], a);
                let adj2 = self.adj();
                assert forall|v: int| 0 <= v < adj2.len() implies sorted_around(pos, v as usize, #[trigger] adj2[v]) by {
                    if v != a as int && v != b as int {
                        assert(adj2[v] == adj0[v]);
                    }
                }
            }
        }
    }

    /// Removes the edge between `a` and `b`; returns whether there was one.
    pub fn disconnect(&mut self, a: usize, b: usize) -> (r: bool)
        requires
            old(self).wf(),
            a < old(self).positions().len(),
            b < old(self).positions().len(),
        ensures
            final(self).wf(),
            r == adjacent(old(self).adj(), a, b),
            final(self).positions() == old(self).positions(),
            final(self).data() == old(self).data(),
            final(self).adj() == if r {
                remove_edge(old(self).adj(), a, b)
            } else {
                old(self).adj()
            },
            forall|v: usize, w: usize| #[trigger]
                adjacent(final(self).adj(), v, w) <==> (adjacent(old(self).adj(), v, w) && !(v == a
                    && w == b) && !(v == b && w == a)),
            ccw_sorted(old(self).positions(), old(self).adj()) ==> ccw_sorted(final(self).positions(), final(self).adj()),
    {
        if !self.is_connected(a, b) {
            proof {
                assert forall|v: usize, w: usize| #[trigger]
                    adjacent(self.adj(), v, w) implies !(v == b && w == a) by {
                    if v == b && w == a {
                        assert(adjacent(self.adj(), a, b));
                    }
                }
            }
            return false;
        }
        proof {
            lemma_remove_edge_wf(self.positions(), self.adj(), a, b);
            assert(adjacent(self.adj(), b, a));
        }
        let ghost adj0 = self.adj();
        let ia = Self::find(&self.neighbors[a], b);
        self.neighbors[a].remove(ia);
        let ghost adj1 = adj0.update(a as int, adj0[a as int].remove(ia as int));
        assert(self.adj() =~= adj1);
        assert(self.adj()[b as int] == adj0[b as int]);
        let ib = Self::find(&self.neighbors[b], a);
        self.neighbors[b].remove(ib);
        assert(self.adj() =~= remove_edge(adj0, a, b));
        proof {
            let pos = self.positions();
            if ccw_sorted(pos, adj0) {
                lemma_remove_sorted(pos, a, adj0[a as int], ia as int);
                lemma_remove_sorted(pos, b, adj0[b as int], ib as int);
                let adj2 = self.adj();
                assert forall|v: int| 0 <= v < adj2.len() implies sorted_around(pos, v as usize, #[trigger] adj2[v]) by {
                    if v != a as int && v != b as int {
                        assert(adj2[v] == adj0[v]);
                    }
                }
            }
        }
        true
    }

    /// The neighbour of `from` just before `to` in counterclockwise order.
    pub fn cw_neighbor_of(&self, from: usize, to: usize) -> (r: usize)
        requires
            self.wf(),
            adjacent(self.adj(), from, to),
        ensures
            r == cw_neighbor(self.adj(), from, to),
            adjacent(self.adj(), from, r),
    {
        let l = &self.neighbors[from];
        let i = Self::find(l, to);
        let r = if i == 0 {
            l[l.len() - 1]
        } else {
            l[i - 1]
        };
        assert(l@.contains(r));
        r
    }

    /// The neighbour of `from` just after `to` in counterclockwise order.
    pub fn ccw_neighbor_of(&self, from: usize, to: usize) -> (r: usize)
        requires
            self.wf(),
            adjacent(self.adj(), from, to),
        ensures
            r == ccw_neighbor(self.adj(), from, to),
            adjacent(self.adj(), from, r),
    {
        let l = &self.neighbors[from];
        let i = Self::find(l, to);
        let r = if i == l.len() - 1 {
            l[0]
        } else {
            l[i + 1]
        };
        assert(l@.contains(r));
        r
    }

    /// The neighbours of `center` from `from` to `to`, turning clockwise
    /// around `center`, both ends included; `None` if turning once all the
    /// way round from `from` does not meet `to`.
    pub fn cw_fan(&self, center: usize, from: usize, to: usize) -> (r: Option<Vec<usize>>)
        requires
            self.wf(),
            adjacent(self.adj(), center, from),
        ensures
            match r {
                Some(v) => {
                    &&& v@.len() >= 1
                    &&& v@.last() == to
                    &&& forall|i: int| 0 <= i < v@.len() ==> #[trigger] v@[i] == cw_turn(self.adj(), center, from, i as nat)
                    &&& forall|i: int| 0 <= i < v@.len() - 1 ==> #[trigger] v@[i] != to
                },
                None => forall|k: nat|
                    k <= self.adj()[center as int].len() ==> #[trigger] cw_turn(self.adj(), center, from, k) != to,
            },
    {
        let ghost adj = self.adj();
        proof {
            lemma_degree_bound(self.positions(), adj, center as int);
        }
        let deg = self.neighbors[center].len();
        let mut result: Vec<usize> = Vec::new();
        let mut cur = from;
        let mut k: usize = 0;
        while k <= deg
            invariant
                self.wf(),
                adj == self.adj(),
                deg == adj[center as int].len(),
                deg < usize::MAX,
                k <= deg + 1,
                result@.len() == k,
                cur == cw_turn(adj, center, from, k as nat),
                adjacent(adj, center, cur),
                forall|i: int| 0 <= i < k ==> #[trigger] result@[i] == cw_turn(adj, center, from, i as nat),
                forall|i: int| 0 <= i < k ==> #[trigger] cw_turn(adj, center, from, i as nat) != to,
            decreases deg + 1 - k,
        {
            result.push(cur);
            if cur == to {
                assert forall|i: int| 0 <= i < result@.len() - 1 implies #[trigger] result@[i] != to by {
                    assert(result@[i] == cw_turn(adj, center, from, i as nat));
                }
                return Some(result);
            }
            proof {
                lemma_cw_neighbor_adjacent(self.positions(), adj, center, cur);
            }
            cur = self.cw_neighbor_of(center, cur);
            k = k + 1;
        }
        assert forall|j: nat| j <= adj[center as int].len() implies #[trigger] cw_turn(adj, center, from, j) != to by {
            let i: int = j as int;
            assert(0 <= i < k);
            assert(cw_turn(adj, center, from, i as nat) != to);
        }
        None
    }

    /// Whether the edge `from - to` can be flipped.
    pub fn is_flippable(&self, from: usize, to: usize) -> (r: bool)
        requires
            self.wf(),
            from < self.positions().len(),
        ensures
            r == flippable(self.adj(), from, to),
    {
        if !self.is_connected(from, to) {
            return false;
        }
        let c = self.cw_neighbor_of(from, to);
        let d = self.ccw_neighbor_of(from, to);
        proof {
            let k = choose|k: int| 0 <= k < self.adj()[from as int].len() && self.adj()[from as int][k] == c;
            assert((self.adj()[from as int][k] as int) < self.adj().len());
        }
        c != d && !self.is_connected(c, d) && self.is_connected(to, c) && self.is_connected(to, d)
    }

    /// Replaces the edge `from - to` by the edge between its clockwise and
    /// counterclockwise neighbours around `from`.
    pub fn flip_edge_cw(&mut self, from: usize, to: usize)
        requires
            old(self).wf(),
            flippable(old(self).adj(), from, to),
        ensures
            final(self).wf(),
            final(self).positions() == old(self).positions(),
            final(self).data() == old(self).data(),
            final(self).adj() == add_edge(
                old(self).positions(),
                remove_edge(old(self).adj(), from, to),
                cw_neighbor(old(self).adj(), from, to),
                ccw_neighbor(old(self).adj(), from, to),
            ),
            forall|v: usize, w: usize| #[trigger]
                adjacent(final(self).adj(), v, w) <==> ((adjacent(old(self).adj(), v, w) && !(v
                    == from && w == to) && !(v == to && w == from)) || (v == cw_neighbor(
                    old(self).adj(),
                    from,
                    to,
                ) && w == ccw_neighbor(old(self).adj(), from, to)) || (v == ccw_neighbor(
                    old(self).adj(),
                    from,
                    to,
                ) && w == cw_neighbor(old(self).adj(), from, to))),
            forall|v: int|
                0 <= v < old(self).adj().len() && v != from && v != to && v != cw_neighbor(
                    old(self).adj(),
                    from,
                    to,
                ) && v != ccw_neighbor(old(self).adj(), from, to) ==> #[trigger] final(self).adj()[v]
                    == old(self).adj()[v],
            final(self).adj()[cw_neighbor(old(self).adj(), from, to) as int].len() == old(
                self,
            ).adj()[cw_neighbor(old(self).adj(), from, to) as int].len() + 1,
            final(self).adj()[ccw_neighbor(old(self).adj(), from, to) as int].len() == old(
                self,
            ).adj()[ccw_neighbor(old(self).adj(), from, to) as int].len() + 1,
            cw_neighbor(old(self).adj(), from, to) != from,
            cw_neighbor(old(self).adj(), from, to) != to,
            ccw_neighbor(old(self).adj(), from, to) != from,
            ccw_neighbor(old(self).adj(), from, to) != to,
            ccw_sorted(old(self).positions(), old(self).adj()) ==> ccw_sorted(final(self).positions(), final(self).adj()),
    {
        let ghost adj0 = self.adj();
        let c = self.cw_neighbor_of(from, to);
        let d = self.ccw_neighbor_of(from, to);
        proof {
            let l = adj0[from as int];
            let i = l.index_of(to);
            let k = choose|k: int| 0 <= k < l.len() && l[k] == to;
            assert(l[k] == to);
            lemma_index_of_unique(l, k);
            assert(adjacent(adj0, to, c));
            assert(adjacent(adj0, c, to));
            assert((c as int) < adj0.len());
            assert((d as int) < adj0.len());
            assert(adjacent(adj0, to, from));
            assert((from as int) < adj0.len());
            assert((to as int) < adj0.len());
            // c and d are list entries at positions other than i
            if c == to {
                assert(l.len() >= 1);
                if i == 0 {
                    lemma_index_of_unique(l, l.len() - 1);
                } else {
                    lemma_index_of_unique(l, i - 1);
                }
            }
            if d == to {
                if i + 1 == l.len() {
                    lemma_index_of_unique(l, 0);
                } else {
                    lemma_index_of_unique(l, i + 1);
                }
            }
        }
        let removed = self.disconnect(from, to);
        assert(removed);
        let ghost adj1 = self.adj();
        assert(adj1[c as int] == adj0[c as int]);
        assert(adj1[d as int] == adj0[d as int]);
        self.connect(c, d);
        proof {
            let adj2 = self.adj();
            lemma_insert_index_from_bounds(self.positions(), c, adj1[c as int], d, 0);
            lemma_insert_contains(adj1[c as int], insert_index(self.positions(), c, adj1[c as int], d), d);
            let a1 = adj1.update(c as int, adj1[c as int].insert(insert_index(self.positions(), c, adj1[c as int], d), d));
            lemma_insert_index_from_bounds(self.positions(), d, a1[d as int], c, 0);
            lemma_insert_contains(a1[d as int], insert_index(self.positions(), d, a1[d as int], c), c);
            assert forall|v: int|
                0 <= v < adj0.len() && v != from && v != to && v != c && v != d implies #[trigger] adj2[v]
                    == adj0[v] by {
                assert(adj1[v] == adj0[v]);
            }
        }
    }

}

} // verus!
