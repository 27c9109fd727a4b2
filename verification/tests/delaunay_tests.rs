use rand::distributions::{IndependentSample, Range};
use rand::{SeedableRng, XorShiftRng};
use spade::delaunay::{DelaunayTriangulation, InsertError};
use spade::walk::PositionInTriangulation;
use spade::geometry::{contained_in_circumference, BoundingRect, Point};

/// Coordinates are integers; decimal coordinates of the scenarios are
/// scaled by a million and rounded.
const SCALE: f64 = 1_000_000.0;

fn pt(x: i64, y: i64) -> Point {
    Point { x, y }
}

fn scaled(x: f64, y: f64) -> Point {
    Point { x: (x * SCALE).round() as i64, y: (y * SCALE).round() as i64 }
}

fn scaled_tolerance(t: f64) -> i64 {
    (t * SCALE).round() as i64
}

fn random_points(size: usize, seed: [u32; 4]) -> Vec<Point> {
    const SIZE: f64 = 1000.;
    let mut rng = XorShiftRng::from_seed(seed);
    let range = Range::new(-SIZE / 2., SIZE / 2.);
    let mut points = Vec::with_capacity(size);
    for _ in 0..size {
        let x = range.ind_sample(&mut rng);
        let y = range.ind_sample(&mut rng);
        points.push(scaled(x, y));
    }
    points
}

#[test]
fn test_inserting_one_point() {
    let mut d = DelaunayTriangulation::new();
    assert_eq!(d.num_vertices(), 0);
    d.insert(pt(0, 0), pt(0, 0)).unwrap();
    assert_eq!(d.num_vertices(), 1);
}

#[test]
fn test_inserting_two_points() {
    let mut d = DelaunayTriangulation::new();
    d.insert(pt(0, 0), pt(0, 0)).unwrap();
    d.insert(pt(0, 1), pt(0, 1)).unwrap();
    assert_eq!(d.num_vertices(), 2);
}

#[test]
fn test_inserting_three_points() {
    let mut d = DelaunayTriangulation::new();
    d.insert(pt(0, 0), pt(0, 0)).unwrap();
    d.insert(pt(1, 0), pt(1, 0)).unwrap();
    d.insert(pt(0, 1), pt(0, 1)).unwrap();
    assert_eq!(d.num_vertices(), 3);
}

#[test]
fn test_iterate_faces() {
    let mut d = DelaunayTriangulation::new();
    d.insert(pt(0, 0), pt(0, 0)).unwrap();
    d.insert(pt(1, 0), pt(1, 0)).unwrap();
    d.insert(pt(1, 1), pt(1, 1)).unwrap();
    d.insert(pt(2, 1), pt(2, 1)).unwrap();
    let mut it = d.triangles();
    while let Some(triangle) = it.next() {
        println!("triangle:");
        for t in &triangle.0 {
            println!("{}", t);
        }
    }
    assert_eq!(d.triangles().count(), 2);
}

#[test]
fn test_contained_in_circumference() {
    let (a1, a2, a3) = (1f64, 2f64, 3f64);
    let (ox, oy) = (0.5, 0.7);
    let offset = scaled(ox, oy);
    let v1 = scaled(a1.sin() * 2. + ox, a1.cos() * 2. + oy);
    let v2 = scaled(a2.sin() * 2. + ox, a2.cos() * 2. + oy);
    let v3 = scaled(a3.sin() * 2. + ox, a3.cos() * 2. + oy);
    assert!(contained_in_circumference(v1, v2, v3, offset));
    let shrunk = scaled(a1.sin() * 2. * 0.9 + ox, a1.cos() * 2. * 0.9 + oy);
    assert!(contained_in_circumference(v1, v2, v3, shrunk));
    let expanded = scaled(a1.sin() * 2. * 1.1 + ox, a1.cos() * 2. * 1.1 + oy);
    assert!(!contained_in_circumference(v1, v2, v3, expanded));
    assert!(!contained_in_circumference(v1, v2, v3, scaled(2.0 + ox, 2.0 + oy)));
}

#[test]
fn test_insert_points() {
    const SIZE: usize = 10000;
    let mut points = random_points(SIZE, [1, 3, 3, 7]);
    let mut delaunay = DelaunayTriangulation::new();
    delaunay.set_tolerance(scaled_tolerance(1.0e-6));
    for p in points.drain(..) {
        delaunay.insert(p, p).unwrap();
    }
    assert_eq!(delaunay.num_vertices(), SIZE);
}

#[test]
fn test_insert_outside_convex_hull() {
    const NUM: usize = 100;
    let mut rng = XorShiftRng::from_seed([94, 62, 2010, 2016]);
    let range = Range::new(0., ::std::f64::consts::PI);
    let mut delaunay = DelaunayTriangulation::new();
    for _ in 0..NUM {
        let ang = range.ind_sample(&mut rng);
        let p = scaled(ang.sin() * 100., ang.cos() * 100.);
        delaunay.insert(p, p).unwrap();
    }
    assert_eq!(delaunay.num_vertices(), NUM);
}

#[test]
fn test_insert_same_point() {
    const SIZE: usize = 30;
    let mut points = random_points(SIZE, [2, 123, 43, 7]);
    let mut delaunay = DelaunayTriangulation::new();
    delaunay.set_tolerance(scaled_tolerance(1e-6));
    for p in &points {
        delaunay.insert(*p, *p).unwrap();
    }
    for p in points.drain(..) {
        delaunay.insert(p, p).unwrap();
    }
    assert_eq!(delaunay.num_vertices(), SIZE);
}

#[test]
fn test_insert_on_edges() {
    let mut delaunay = DelaunayTriangulation::new();
    delaunay.set_tolerance(scaled_tolerance(1e-6));
    for (x, y) in [
        (0., 0.),
        (1., 0.),
        (0., 1.),
        (1., 1.),
        (0.5, 0.5),
        (0.2, 0.2),
        (0., 0.4),
        (1., 0.5),
        (0.5, 1.),
        (0.7, 0.),
    ] {
        delaunay.insert(scaled(x, y), scaled(x, y)).unwrap();
    }
}

#[test]
fn test_insert_points_on_line() {
    let mut delaunay = DelaunayTriangulation::new();
    delaunay.insert(pt(0, 1), pt(0, 1)).unwrap();
    for i in -50..50 {
        delaunay.insert(pt(i, 0), pt(i, 0)).unwrap();
    }
}

#[test]
fn test_insert_points_on_grid() {
    let mut delaunay = DelaunayTriangulation::new();
    delaunay.set_tolerance(scaled_tolerance(1e-6));
    delaunay.insert(scaled(0., 1.), scaled(0., 1.)).unwrap();
    delaunay.insert(scaled(0., 0.), scaled(0., 0.)).unwrap();
    delaunay.insert(scaled(1., 0.), scaled(1., 0.)).unwrap();
    for y in 0..20 {
        for x in 0..20 {
            let p = scaled(x as f64, y as f64);
            delaunay.insert(p, p).unwrap();
        }
    }
    assert_eq!(delaunay.num_vertices(), 400);
}

#[test]
fn crash_test1() {
    let points = [
        (-0.47000003, -0.5525),
        (-0.45499998, -0.055000007),
        (0.049999952, -0.52),
        (-0.10310739, -0.37901995),
        (-0.29053342, -0.20643954),
        (-0.19144729, -0.42079023),
    ];
    let mut delaunay = DelaunayTriangulation::new();
    delaunay.set_tolerance(scaled_tolerance(0.00005));
    for (x, y) in points.iter().cloned() {
        delaunay.insert(scaled(x, y), scaled(x, y)).unwrap();
    }
}

#[test]
fn random_triangulation_is_delaunay() {
    let points = random_points(300, [5, 8, 13, 21]);
    let mut d = DelaunayTriangulation::new();
    for p in points {
        d.insert(p, p).unwrap();
    }
    assert_eq!(d.num_vertices(), 300);
    assert!(d.is_delaunay());
    // Euler: a triangulation of n points with h hull vertices has 2n - 2 - h triangles
    let count = d.triangles().count();
    assert!(count >= 300 && count <= 2 * 300 - 5);
}

#[test]
fn grid_triangulation_is_delaunay() {
    let mut d = DelaunayTriangulation::new();
    d.insert(pt(0, 10), pt(0, 10)).unwrap();
    d.insert(pt(0, 0), pt(0, 0)).unwrap();
    d.insert(pt(10, 0), pt(10, 0)).unwrap();
    for y in 0..6 {
        for x in 0..6 {
            d.insert(pt(x * 10, y * 10), pt(x * 10, y * 10)).unwrap();
        }
    }
    assert_eq!(d.num_vertices(), 36);
    assert!(d.is_delaunay());
    // a 6 x 6 grid of points has 2 * 5 * 5 triangles
    assert_eq!(d.triangles().count(), 50);
}

#[test]
fn reinserting_changes_nothing() {
    let mut d = DelaunayTriangulation::new();
    for p in [pt(0, 0), pt(10, 0), pt(0, 10), pt(10, 10), pt(4, 6)] {
        d.insert(p, p).unwrap();
    }
    let before: Vec<Vec<usize>> = (0..d.num_vertices()).map(|v| d.s.neighbors(v).clone()).collect();
    d.insert(pt(4, 6), pt(4, 6)).unwrap();
    d.insert(pt(0, 0), pt(0, 0)).unwrap();
    let after: Vec<Vec<usize>> = (0..d.num_vertices()).map(|v| d.s.neighbors(v).clone()).collect();
    assert_eq!(d.num_vertices(), 5);
    assert_eq!(before, after);
}

#[test]
fn lookup_finds_inserted_points() {
    let mut d = DelaunayTriangulation::new();
    assert_eq!(d.lookup(pt(1, 1)), None);
    for p in [pt(0, 0), pt(10, 0), pt(0, 10), pt(7, 7)] {
        d.insert(p, p).unwrap();
    }
    assert_eq!(d.lookup(pt(7, 7)), Some(3));
    assert_eq!(d.lookup(pt(0, 0)), Some(0));
    assert_eq!(d.lookup(pt(1, 1)), None);
}

#[test]
fn lookup_in_rect_and_circle() {
    let mut d = DelaunayTriangulation::new();
    for p in [pt(0, 0), pt(10, 0), pt(0, 10), pt(10, 10), pt(5, 5)] {
        d.insert(p, p).unwrap();
    }
    let rect = BoundingRect::from_corners(pt(10, 10), pt(5, 0));
    assert_eq!(d.lookup_in_rect(&rect), vec![1, 3, 4]);
    assert_eq!(d.lookup_in_circle(pt(0, 0), 50), vec![0, 4]);
    assert_eq!(d.lookup_in_circle(pt(0, 0), 49), vec![0]);
}

#[test]
fn ccw_neighbour_order() {
    let mut d = DelaunayTriangulation::new();
    for p in [pt(0, 0), pt(10, 0), pt(0, 10), pt(-10, -10), pt(2, 2)] {
        d.insert(p, p).unwrap();
    }
    // the centre vertex sees its neighbours sorted by direction, from the
    // positive x axis counterclockwise
    let v = d.lookup(pt(2, 2)).unwrap();
    let nbs = d.s.neighbors(v).clone();
    let positions: Vec<Point> = nbs.iter().map(|&w| d.s.position(w)).collect();
    assert_eq!(positions, vec![pt(0, 10), pt(0, 0), pt(10, 0)]);
}

#[test]
fn incircle_symmetry_on_values() {
    let (a, b, c) = (pt(0, 10), pt(10, 0), pt(0, -10));
    // (a, b, c) is clockwise; the centre lies inside its circle
    assert!(contained_in_circumference(a, b, c, pt(0, 0)));
    assert!(contained_in_circumference(b, c, a, pt(0, 0)));
    assert!(!contained_in_circumference(b, a, c, pt(0, 0)));
    assert!(!contained_in_circumference(a, b, c, pt(20, 0)));
}

#[test]
fn walk_locates_points() {
    let mut d = DelaunayTriangulation::new();
    for p in [pt(0, 0), pt(10, 0), pt(0, 10)] {
        d.insert(p, p).unwrap();
    }
    assert_eq!(d.get_position_in_triangulation(0, pt(2, 2)), Some(PositionInTriangulation::InTriangle(1, 2, 0)));
    assert_eq!(d.get_position_in_triangulation(0, pt(10, 0)), Some(PositionInTriangulation::OnPoint(1)));
    assert_eq!(d.get_position_in_triangulation(0, pt(5, 0)), Some(PositionInTriangulation::OnEdge(1, 0)));
    match d.get_position_in_triangulation(0, pt(20, 20)) {
        Some(PositionInTriangulation::OutsideConvexHull(_, _)) => {}
        other => panic!("unexpected {:?}", other),
    }
}

#[test]
fn insert_error_is_comparable() {
    assert_ne!(InsertError::WalkDidNotFinish, InsertError::HullWalkDidNotFinish);
}

#[test]
fn collinear_start_gives_walk_error() {
    let mut d = DelaunayTriangulation::new();
    d.insert(pt(0, 0), pt(0, 0)).unwrap();
    d.insert(pt(10, 0), pt(10, 0)).unwrap();
    d.insert(pt(20, 0), pt(20, 0)).unwrap();
    // the first three points are collinear, so the first "triangle" is flat
    // and locating a fourth point on the same line never ends
    assert_eq!(d.insert(pt(30, 0), pt(30, 0)), Err(InsertError::WalkDidNotFinish));
    assert_eq!(d.num_vertices(), 3);
}

#[test]
fn degenerate_hull_gives_hull_walk_error() {
    let mut d = DelaunayTriangulation::new();
    d.set_tolerance(6);
    for p in [pt(-20, -30), pt(-30, -10), pt(-40, 20), pt(-30, -20), pt(30, 0)] {
        d.insert(p, p).unwrap();
    }
    assert_eq!(d.insert(pt(-10, -10), pt(-10, -10)), Err(InsertError::HullWalkDidNotFinish));
    assert_eq!(d.num_vertices(), 5);
    assert_eq!(d.lookup(pt(-10, -10)), None);
}
