//! Exact geometric predicates on integer points.
//!
//! Every predicate is computed in `i128` without rounding; the coordinate
//! limit keeps all intermediate products in range.
use vstd::prelude::*;

verus! {

/// Largest absolute value a coordinate may take.
pub const COORD_LIMIT: i64 = 500_000_000;

/// A point of the plane.
#[derive(Clone, Copy, Debug, PartialEq, Eq, Structural)]
pub struct Point {
    pub x: i64,
    pub y: i64,
}

/// The coordinates of `p` lie within the limit.
pub open spec fn in_range(p: Point) -> bool {
    -COORD_LIMIT <= p.x <= COORD_LIMIT && -COORD_LIMIT <= p.y <= COORD_LIMIT
}

/// Twice the signed area of the triangle `(a, b, p)`: positive when `p` lies
/// to the left of the directed line from `a` to `b`.
pub open spec fn side_of(a: Point, b: Point, p: Point) -> int {
    (b.x - a.x) * (p.y - a.y) - (b.y - a.y) * (p.x - a.x)
}

/// Squared euclidean distance between two points.
pub open spec fn dist2(a: Point, b: Point) -> int {
    (a.x - b.x) * (a.x - b.x) + (a.y - b.y) * (a.y - b.y)
}

/// The distance from `p` to the closed segment `[a, b]` is at most `tol`.
///
/// With `d = b - a` and `w = p - a`, the nearest point of the segment is `a`
/// when `w . d <= 0`, `b` when `w . d >= d . d`, and otherwise the foot of the
/// perpendicular, whose squared distance is `cross(d, w)^2 / (d . d)`.
pub open spec fn within_segment_distance(a: Point, b: Point, p: Point, tol: int) -> bool {
    let dx = b.x - a.x;
    let dy = b.y - a.y;
    let wx = p.x - a.x;
    let wy = p.y - a.y;
    let len2 = dx * dx + dy * dy;
    let t = wx * dx + wy * dy;
    let cross = dx * wy - dy * wx;
    &&& tol >= 0
    &&& if len2 == 0 || t <= 0 {
        dist2(p, a) <= tol * tol
    } else if t >= len2 {
        dist2(p, b) <= tol * tol
    } else {
        cross * cross <= tol * tol * len2
    }
}

/// The determinant of the rows `(x, y, x^2 + y^2, 1)` of `a`, `b`, `c`, `p`,
/// written after subtracting `p` from the three other rows.
pub open spec fn incircle_det(a: Point, b: Point, c: Point, p: Point) -> int {
    let adx = a.x - p.x;
    let ady = a.y - p.y;
    let bdx = b.x - p.x;
    let bdy = b.y - p.y;
    let cdx = c.x - p.x;
    let cdy = c.y - p.y;
    let al = adx * adx + ady * ady;
    let bl = bdx * bdx + bdy * bdy;
    let cl = cdx * cdx + cdy * cdy;
    adx * (bdy * cl - bl * cdy) - ady * (bdx * cl - bl * cdx) + al * (bdx * cdy - bdy * cdx)
}

/// `p` lies inside the circle through the clockwise ordered `a`, `b`, `c`.
pub open spec fn spec_contained_in_circumference(a: Point, b: Point, c: Point, p: Point) -> bool {
    incircle_det(a, b, c, p) < 0
}

/// `p` lies strictly inside the circle through the counterclockwise ordered
/// `a`, `b`, `c`.
pub open spec fn in_circumcircle(a: Point, b: Point, c: Point, p: Point) -> bool {
    incircle_det(a, b, c, p) > 0
}

/// `q` lies strictly inside the circle through `a`, `b` and `c`, taken in
/// whichever orientation they have.
pub open spec fn inside_circle(a: Point, b: Point, c: Point, q: Point) -> bool {
    if side_of(a, b, c) >= 0 {
        incircle_det(a, b, c, q) > 0
    } else {
        incircle_det(a, b, c, q) < 0
    }
}

/// Two points whose sides of a line are `s1` and `s2` lie on opposite
/// sides of it, each at least `tol` off it.
pub open spec fn opposite_sides(s1: int, s2: int, tol: int) -> bool {
    (s1 >= tol && s2 <= -tol) || (s1 <= -tol && s2 >= tol)
}

/// `p` lies, up to `tol`, in the angular sector around `origin` that runs
/// counterclockwise from the direction of `cw` to the direction of `ccw`.
pub open spec fn spec_in_circle_segment(origin: Point, cw: Point, ccw: Point, p: Point, tol: int) -> bool {
    let left_of_cw = side_of(origin, cw, p) >= -tol;
    let right_of_ccw = side_of(origin, ccw, p) <= tol;
    if side_of(origin, cw, ccw) >= 0 {
        left_of_cw && right_of_ccw
    } else {
        left_of_cw || right_of_ccw
    }
}

proof fn lemma_mul_bounded(a: int, b: int, la: int, lb: int)
    by (nonlinear_arith)
    requires
        0 <= la,
        0 <= lb,
        -la <= a <= la,
        -lb <= b <= lb,
    ensures
        -(la * lb) <= a * b <= la * lb,
{
}

pub proof fn lemma_square_nonneg(a: int)
    by (nonlinear_arith)
    ensures
        a * a >= 0,
{
}

/// An axis-aligned rectangle, given by its lower-left and upper-right corners.
#[derive(Clone, Copy, Debug, PartialEq, Eq, Structural)]
pub struct BoundingRect {
    pub lower: Point,
    pub upper: Point,
}

/// `p` lies in the closed rectangle `r`.
pub open spec fn rect_contains(r: BoundingRect, p: Point) -> bool {
    r.lower.x <= p.x <= r.upper.x && r.lower.y <= p.y <= r.upper.y
}

impl BoundingRect {
    /// The smallest rectangle containing both corners.
    pub fn from_corners(a: Point, b: Point) -> (r: BoundingRect)
        ensures
            r.lower.x == if a.x <= b.x { a.x } else { b.x },
            r.lower.y == if a.y <= b.y { a.y } else { b.y },
            r.upper.x == if a.x <= b.x { b.x } else { a.x },
            r.upper.y == if a.y <= b.y { b.y } else { a.y },
    {
        let (lx, ux) = if a.x <= b.x { (a.x, b.x) } else { (b.x, a.x) };
        let (ly, uy) = if a.y <= b.y { (a.y, b.y) } else { (b.y, a.y) };
        BoundingRect { lower: Point { x: lx, y: ly }, upper: Point { x: ux, y: uy } }
    }

    /// Whether `p` lies in the rectangle, borders included.
    pub fn contains_point(&self, p: Point) -> (r: bool)
        ensures
            r == rect_contains(*self, p),
    {
        self.lower.x <= p.x && p.x <= self.upper.x && self.lower.y <= p.y && p.y <= self.upper.y
    }
}

/// Two points at squared distance zero are equal.
pub proof fn lemma_dist2_zero(a: Point, b: Point)
    requires
        dist2(a, b) <= 0,
    ensures
        a == b,
{
    lemma_sum_squares_zero(a.x - b.x, a.y - b.y);
}

proof fn lemma_sum_squares_zero(u: int, v: int)
    by (nonlinear_arith)
    requires
        u * u + v * v <= 0,
    ensures
        u == 0 && v == 0,
{
}

/// An end of a segment is within any tolerance of it.
pub proof fn lemma_within_at_start(a: Point, b: Point, tol: int)
    requires
        tol >= 0,
    ensures
        within_segment_distance(a, b, a, tol),
{
    let dx = b.x - a.x;
    let dy = b.y - a.y;
    assert((a.x - a.x) * dx + (a.y - a.y) * dy == 0) by (nonlinear_arith);
    assert(dist2(a, a) == 0) by (nonlinear_arith);
    lemma_square_nonneg(tol);
}

/// The far end of a segment is within any tolerance of it.
pub proof fn lemma_within_at_end(a: Point, b: Point, tol: int)
    requires
        tol >= 0,
    ensures
        within_segment_distance(a, b, b, tol),
{
    let dx = b.x - a.x;
    let dy = b.y - a.y;
    assert(dist2(b, b) == 0) by (nonlinear_arith);
    assert(dist2(b, a) == dx * dx + dy * dy) by (nonlinear_arith)
        requires
            dx == b.x - a.x,
            dy == b.y - a.y,
    ;
    lemma_square_nonneg(tol);
}

proof fn lemma_distribute(a: int, b: int, c: int, d: int)
    by (nonlinear_arith)
    ensures
        (a + b) * (c + d) == a * c + a * d + b * c + b * d,
        (a + b) * (a + b) == a * a + 2 * (a * b) + b * b,
        (a - b) * (a - b) == a * a - 2 * (a * b) + b * b,
{
}

proof fn lemma_square_product(a: int, b: int)
    by (nonlinear_arith)
    ensures
        (a * a) * (b * b) == (a * b) * (a * b),
{
}

proof fn lemma_swap_product(a: int, b: int, c: int, d: int)
    by (nonlinear_arith)
    ensures
        (a * b) * (c * d) == (b * c) * (d * a),
{
}

proof fn lemma_lagrange(wx: int, wy: int, dx: int, dy: int)
    ensures
        (wx * wx + wy * wy) * (dx * dx + dy * dy) == (wx * dx + wy * dy) * (wx * dx + wy * dy) + (dx
            * wy - dy * wx) * (dx * wy - dy * wx),
{
    lemma_distribute(wx * wx, wy * wy, dx * dx, dy * dy);
    lemma_distribute(wx * dx, wy * dy, 0, 0);
    lemma_distribute(dx * wy, dy * wx, 0, 0);
    lemma_square_product(wx, dx);
    lemma_square_product(wx, dy);
    lemma_square_product(wy, dx);
    lemma_square_product(wy, dy);
    assert((wx * dy) * (wx * dy) == (dy * wx) * (dy * wx)) by (nonlinear_arith);
    assert((wy * dx) * (wy * dx) == (dx * wy) * (dx * wy)) by (nonlinear_arith);
    lemma_swap_product(wx, dx, wy, dy);
    assert((dx * wy) * (dy * wx) == (wx * dx) * (wy * dy)) by (nonlinear_arith);
}

proof fn lemma_mul_le(a: int, b: int, c: int)
    by (nonlinear_arith)
    requires
        0 <= a <= b,
        0 <= c,
    ensures
        a * c <= b * c,
{
}

/// Every in-range point lies within a tolerance above `2 * 10^9` of every
/// in-range segment.
proof fn lemma_far_tolerance(a: Point, b: Point, p: Point, tol: int)
    requires
        in_range(a),
        in_range(b),
        in_range(p),
        tol > 2_000_000_000,
    ensures
        within_segment_distance(a, b, p, tol),
{
    let dx = b.x - a.x;
    let dy = b.y - a.y;
    let wx = p.x - a.x;
    let wy = p.y - a.y;
    let d: int = 1_000_000_000;
    lemma_mul_bounded(wx, wx, d, d);
    lemma_mul_bounded(wy, wy, d, d);
    lemma_mul_bounded(p.x - b.x, p.x - b.x, d, d);
    lemma_mul_bounded(p.y - b.y, p.y - b.y, d, d);
    assert(tol * tol >= 4_000_000_000_000_000_000) by (nonlinear_arith)
        requires
            tol > 2_000_000_000,
    ;
    let len2 = dx * dx + dy * dy;
    let t = wx * dx + wy * dy;
    let cross = dx * wy - dy * wx;
    lemma_square_nonneg(dx);
    lemma_square_nonneg(dy);
    lemma_square_nonneg(t);
    lemma_square_nonneg(wx);
    lemma_square_nonneg(wy);
    lemma_lagrange(wx, wy, dx, dy);
    lemma_mul_le(wx * wx + wy * wy, tol * tol, len2);
}

/// Squared distances are never negative.
pub proof fn lemma_dist2_nonneg(a: Point, b: Point)
    ensures
        dist2(a, b) >= 0,
{
    lemma_square_nonneg(a.x - b.x);
    lemma_square_nonneg(a.y - b.y);
}

proof fn lemma_expand3(x: int, y: int, z: int, u: int, v: int)
    by (nonlinear_arith)
    ensures
        x * (y * z - u * v) == x * y * z - x * u * v,
{
}

proof fn lemma_mul3_comm(x: int, y: int, z: int)
    by (nonlinear_arith)
    ensures
        x * y * z == y * z * x,
        x * y * z == z * x * y,
        x * y * z == y * x * z,
        x * y * z == x * z * y,
        x * y * z == z * y * x,
{
}

proof fn lemma_det3_rotation(ax: int, ay: int, al: int, bx: int, by: int, bl: int, cx: int, cy: int, cl: int)
    ensures
        ax * (by * cl - bl * cy) - ay * (bx * cl - bl * cx) + al * (bx * cy - by * cx) == bx * (cy * al
            - cl * ay) - by * (cx * al - cl * ax) + bl * (cx * ay - cy * ax),
        ax * (by * cl - bl * cy) - ay * (bx * cl - bl * cx) + al * (bx * cy - by * cx) == -(bx * (ay
            * cl - al * cy) - by * (ax * cl - al * cx) + bl * (ax * cy - ay * cx)),
{
    lemma_expand3(ax, by, cl, bl, cy);
    lemma_expand3(ay, bx, cl, bl, cx);
    lemma_expand3(al, bx, cy, by, cx);
    lemma_expand3(bx, cy, al, cl, ay);
    lemma_expand3(by, cx, al, cl, ax);
    lemma_expand3(bl, cx, ay, cy, ax);
    lemma_expand3(bx, ay, cl, al, cy);
    lemma_expand3(by, ax, cl, al, cx);
    lemma_expand3(bl, ax, cy, ay, cx);
    lemma_mul3_comm(ax, by, cl);
    lemma_mul3_comm(ax, bl, cy);
    lemma_mul3_comm(ay, bx, cl);
    lemma_mul3_comm(ay, bl, cx);
    lemma_mul3_comm(al, bx, cy);
    lemma_mul3_comm(al, by, cx);
}

/// The in-circle test does not depend on which corner of the triangle comes
/// first, and reversing the orientation of the triangle reverses its sign:
/// that is why callers order the triangle clockwise first.
pub proof fn law_incircle_symmetry(a: Point, b: Point, c: Point, p: Point)
    ensures
        incircle_det(a, b, c, p) == incircle_det(b, c, a, p),
        incircle_det(b, a, c, p) == -incircle_det(a, b, c, p),
        spec_contained_in_circumference(a, b, c, p) == spec_contained_in_circumference(b, c, a, p),
        incircle_det(a, b, c, p) != 0 ==> spec_contained_in_circumference(b, a, c, p)
            == !spec_contained_in_circumference(a, b, c, p),
{
    let adx = a.x - p.x;
    let ady = a.y - p.y;
    let bdx = b.x - p.x;
    let bdy = b.y - p.y;
    let cdx = c.x - p.x;
    let cdy = c.y - p.y;
    lemma_det3_rotation(
        adx,
        ady,
        adx * adx + ady * ady,
        bdx,
        bdy,
        bdx * bdx + bdy * bdy,
        cdx,
        cdy,
        cdx * cdx + cdy * cdy,
    );
}

/// `p` moved by `(dx, dy)`.
pub open spec fn translate(p: Point, dx: int, dy: int) -> Point {
    Point { x: (p.x + dx) as i64, y: (p.y + dy) as i64 }
}

/// `p` moved by `(dx, dy)` stays within the integer type.
pub open spec fn translate_fits(p: Point, dx: int, dy: int) -> bool {
    i64::MIN <= p.x + dx <= i64::MAX && i64::MIN <= p.y + dy <= i64::MAX
}

/// Moving all four points by the same offset does not change the in-circle
/// test.
pub proof fn law_incircle_translation(a: Point, b: Point, c: Point, p: Point, dx: int, dy: int)
    requires
        translate_fits(a, dx, dy),
        translate_fits(b, dx, dy),
        translate_fits(c, dx, dy),
        translate_fits(p, dx, dy),
    ensures
        incircle_det(translate(a, dx, dy), translate(b, dx, dy), translate(c, dx, dy), translate(p, dx, dy))
            == incircle_det(a, b, c, p),
        side_of(translate(a, dx, dy), translate(b, dx, dy), translate(p, dx, dy)) == side_of(a, b, p),
{
}

/// `side_of` computed exactly.
pub fn signed_side(a: Point, b: Point, p: Point) -> (r: i128)
    requires
        in_range(a),
        in_range(b),
        in_range(p),
    ensures
        r == side_of(a, b, p),
        -2_000_000_000_000_000_000 <= r <= 2_000_000_000_000_000_000,
{
    let dx = b.x as i128 - a.x as i128;
    let dy = b.y as i128 - a.y as i128;
    let wx = p.x as i128 - a.x as i128;
    let wy = p.y as i128 - a.y as i128;
    proof {
        lemma_mul_bounded(dx as int, wy as int, 1_000_000_000, 1_000_000_000);
        lemma_mul_bounded(dy as int, wx as int, 1_000_000_000, 1_000_000_000);
    }
    dx * wy - dy * wx
}

/// `p` lies strictly to the left of the directed line from `a` to `b`.
pub fn is_on_left_side(a: Point, b: Point, p: Point) -> (r: bool)
    requires
        in_range(a),
        in_range(b),
        in_range(p),
    ensures
        r == (side_of(a, b, p) > 0),
{
    signed_side(a, b, p) > 0
}

/// `p` lies strictly to the right of the directed line from `a` to `b`.
pub fn is_on_right_side(a: Point, b: Point, p: Point) -> (r: bool)
    requires
        in_range(a),
        in_range(b),
        in_range(p),
    ensures
        r == (side_of(a, b, p) < 0),
{
    signed_side(a, b, p) < 0
}

/// The three points make a counterclockwise (or degenerate) turn.
pub fn is_ordered_ccw(a: Point, b: Point, c: Point) -> (r: bool)
    requires
        in_range(a),
        in_range(b),
        in_range(c),
    ensures
        r == (side_of(a, b, c) >= 0),
{
    signed_side(a, b, c) >= 0
}

/// Squared distance between two points, computed exactly.
pub fn distance2(a: Point, b: Point) -> (r: i128)
    requires
        in_range(a),
        in_range(b),
    ensures
        r == dist2(a, b),
        0 <= r <= 2_000_000_000_000_000_000,
{
    let dx = a.x as i128 - b.x as i128;
    let dy = a.y as i128 - b.y as i128;
    proof {
        lemma_mul_bounded(dx as int, dx as int, 1_000_000_000, 1_000_000_000);
        lemma_mul_bounded(dy as int, dy as int, 1_000_000_000, 1_000_000_000);
        lemma_square_nonneg(dx as int);
        lemma_square_nonneg(dy as int);
    }
    dx * dx + dy * dy
}

/// Whether the squared distance from `q` to `center` is at most `radius2`,
/// for any center.
pub fn within_radius(q: Point, center: Point, radius2: i128) -> (r: bool)
    requires
        in_range(q),
    ensures
        r == (dist2(q, center) <= radius2),
{
    let dx = q.x as i128 - center.x as i128;
    let dy = q.y as i128 - center.y as i128;
    let ghost bound: int = 9_223_372_037_354_775_808;
    proof {
        lemma_mul_bounded(dx as int, dx as int, bound, bound);
        lemma_mul_bounded(dy as int, dy as int, bound, bound);
        lemma_square_nonneg(dx as int);
        lemma_square_nonneg(dy as int);
        assert(bound * bound < i128::MAX) by (nonlinear_arith)
            requires
                bound == 9_223_372_037_354_775_808int,
        ;
    }
    if radius2 < 0 {
        return false;
    }
    let dx2 = dx * dx;
    if dx2 > radius2 {
        return false;
    }
    let dy2 = dy * dy;
    dy2 <= radius2 - dx2
}

/// `p` lies inside the circumcircle of the clockwise ordered triangle
/// `(a, b, c)`: the sign of the lifted determinant, computed exactly.
pub fn contained_in_circumference(a: Point, b: Point, c: Point, p: Point) -> (r: bool)
    requires
        in_range(a),
        in_range(b),
        in_range(c),
        in_range(p),
    ensures
        r == spec_contained_in_circumference(a, b, c, p),
{
    let adx = a.x as i128 - p.x as i128;
    let ady = a.y as i128 - p.y as i128;
    let bdx = b.x as i128 - p.x as i128;
    let bdy = b.y as i128 - p.y as i128;
    let cdx = c.x as i128 - p.x as i128;
    let cdy = c.y as i128 - p.y as i128;
    let ghost d: int = 1_000_000_000;
    let ghost l: int = 2_000_000_000_000_000_000;
    proof {
        lemma_mul_bounded(adx as int, adx as int, d, d);
        lemma_mul_bounded(ady as int, ady as int, d, d);
        lemma_mul_bounded(bdx as int, bdx as int, d, d);
        lemma_mul_bounded(bdy as int, bdy as int, d, d);
        lemma_mul_bounded(cdx as int, cdx as int, d, d);
        lemma_mul_bounded(cdy as int, cdy as int, d, d);
        lemma_square_nonneg(adx as int);
        lemma_square_nonneg(ady as int);
        lemma_square_nonneg(bdx as int);
        lemma_square_nonneg(bdy as int);
        lemma_square_nonneg(cdx as int);
        lemma_square_nonneg(cdy as int);
    }
    let al = adx * adx + ady * ady;
    let bl = bdx * bdx + bdy * bdy;
    let cl = cdx * cdx + cdy * cdy;
    proof {
        lemma_mul_bounded(bdy as int, cl as int, d, l);
        lemma_mul_bounded(bl as int, cdy as int, l, d);
        lemma_mul_bounded(bdx as int, cl as int, d, l);
        lemma_mul_bounded(bl as int, cdx as int, l, d);
        lemma_mul_bounded(bdx as int, cdy as int, d, d);
        lemma_mul_bounded(bdy as int, cdx as int, d, d);
    }
    let m1 = bdy * cl - bl * cdy;
    let m2 = bdx * cl - bl * cdx;
    let m3 = bdx * cdy - bdy * cdx;
    let ghost e: int = 4_000_000_000_000_000_000_000_000_000;
    proof {
        lemma_mul_bounded(adx as int, m1 as int, d, e);
        lemma_mul_bounded(ady as int, m2 as int, d, e);
        lemma_mul_bounded(al as int, m3 as int, l, l);
    }
    let det = adx * m1 - ady * m2 + al * m3;
    det < 0
}

/// The distance from `p` to the segment `[a, b]` is at most `tol`,
/// decided exactly on squared quantities.
pub fn segment_distance_within(a: Point, b: Point, p: Point, tol: i64) -> (r: bool)
    requires
        in_range(a),
        in_range(b),
        in_range(p),
    ensures
        r == within_segment_distance(a, b, p, tol as int),
{
    if tol < 0 {
        return false;
    }
    if tol > 2_000_000_000 {
        proof {
            lemma_far_tolerance(a, b, p, tol as int);
        }
        return true;
    }
    let dx = b.x as i128 - a.x as i128;
    let dy = b.y as i128 - a.y as i128;
    let wx = p.x as i128 - a.x as i128;
    let wy = p.y as i128 - a.y as i128;
    let ghost d: int = 1_000_000_000;
    let ghost h: int = 500_000_000;
    proof {
        lemma_mul_bounded(dx as int, dx as int, d, d);
        lemma_mul_bounded(dy as int, dy as int, d, d);
        lemma_mul_bounded(wx as int, dx as int, d, d);
        lemma_mul_bounded(wy as int, dy as int, d, d);
        lemma_mul_bounded(dx as int, wy as int, d, d);
        lemma_mul_bounded(dy as int, wx as int, d, d);
        lemma_square_nonneg(dx as int);
        lemma_square_nonneg(dy as int);
        lemma_mul_bounded(tol as int, tol as int, 2_000_000_000, 2_000_000_000);
    }
    let len2 = dx * dx + dy * dy;
    let t = wx * dx + wy * dy;
    let cross = dx * wy - dy * wx;
    let tol2 = (tol as i128) * (tol as i128);
    if len2 == 0 || t <= 0 {
        distance2(p, a) <= tol2
    } else if t >= len2 {
        distance2(p, b) <= tol2
    } else {
        proof {
            lemma_mul_bounded(cross as int, cross as int, 2_000_000_000_000_000_000, 2_000_000_000_000_000_000);
            lemma_mul_bounded(tol2 as int, len2 as int, 4_000_000_000_000_000_000, 2_000_000_000_000_000_000);
        }
        cross * cross <= tol2 * len2
    }
}

/// `p` lies, up to `tol`, in the counterclockwise sector from `cw` to `ccw`
/// around `origin`.
pub fn approx_contained_in_circle_segment(origin: Point, cw: Point, ccw: Point, p: Point, tol: i64) -> (r: bool)
    requires
        in_range(origin),
        in_range(cw),
        in_range(ccw),
        in_range(p),
    ensures
        r == spec_in_circle_segment(origin, cw, ccw, p, tol as int),
{
    let t = tol as i128;
    let left_of_cw = signed_side(origin, cw, p) >= -t;
    let right_of_ccw = signed_side(origin, ccw, p) <= t;
    if signed_side(origin, cw, ccw) >= 0 {
        left_of_cw && right_of_ccw
    } else {
        left_of_cw || right_of_ccw
    }
}

} // verus!
