use spade::delaunay::DelaunayTriangulation;
use spade::geometry::{
    approx_contained_in_circle_segment, distance2, is_on_left_side, is_on_right_side,
    is_ordered_ccw, segment_distance_within, signed_side, BoundingRect, Point,
};
use spade::subdivision::PlanarSubdivision;

fn pt(x: i64, y: i64) -> Point {
    Point { x, y }
}

#[test]
fn signed_side_values() {
    assert_eq!(signed_side(pt(0, 0), pt(10, 0), pt(3, 5)), 50);
    assert_eq!(signed_side(pt(0, 0), pt(10, 0), pt(3, -5)), -50);
    assert_eq!(signed_side(pt(0, 0), pt(10, 0), pt(30, 0)), 0);
    assert!(is_on_left_side(pt(0, 0), pt(10, 0), pt(3, 5)));
    assert!(is_on_right_side(pt(0, 0), pt(10, 0), pt(3, -5)));
    assert!(is_ordered_ccw(pt(0, 0), pt(10, 0), pt(30, 0)));
    assert!(!is_ordered_ccw(pt(0, 0), pt(0, 10), pt(10, 0)));
}

#[test]
fn extreme_coordinates_do_not_overflow() {
    let l = spade::geometry::COORD_LIMIT;
    let (a, b, c) = (pt(-l, -l), pt(l, -l), pt(-l, l));
    assert_eq!(signed_side(a, b, c), 4 * (l as i128) * (l as i128));
    assert_eq!(distance2(a, pt(l, l)), 8 * (l as i128) * (l as i128));
    // (a, c, b) is clockwise and (l, l) lies on its circle, not inside
    assert!(!spade::geometry::contained_in_circumference(a, c, b, pt(l, l)));
    assert!(spade::geometry::contained_in_circumference(a, c, b, pt(0, 0)));
}

#[test]
fn segment_distance_cases() {
    let (a, b) = (pt(0, 0), pt(10, 0));
    // beyond the start: distance to a is 5
    assert!(segment_distance_within(a, b, pt(-3, 4), 5));
    assert!(!segment_distance_within(a, b, pt(-3, 4), 4));
    // beyond the end: distance to b is 5
    assert!(segment_distance_within(a, b, pt(13, -4), 5));
    assert!(!segment_distance_within(a, b, pt(13, -4), 4));
    // above the middle: distance 3
    assert!(segment_distance_within(a, b, pt(5, 3), 3));
    assert!(!segment_distance_within(a, b, pt(5, 3), 2));
    // a degenerate segment is a point
    assert!(segment_distance_within(a, a, pt(3, 4), 5));
    assert!(!segment_distance_within(a, a, pt(3, 4), 4));
}

#[test]
fn circle_segment_sectors() {
    let o = pt(0, 0);
    // a convex sector from the x axis to the y axis
    assert!(approx_contained_in_circle_segment(o, pt(10, 0), pt(0, 10), pt(3, 3), 0));
    assert!(!approx_contained_in_circle_segment(o, pt(10, 0), pt(0, 10), pt(-3, 3), 0));
    // the reflex sector from the y axis round to the x axis
    assert!(approx_contained_in_circle_segment(o, pt(0, 10), pt(10, 0), pt(-3, 3), 0));
    assert!(!approx_contained_in_circle_segment(o, pt(0, 10), pt(10, 0), pt(3, 3), 0));
    // the tolerance widens the sector
    assert!(!approx_contained_in_circle_segment(o, pt(10, 0), pt(0, 10), pt(3, -1), 0));
    assert!(approx_contained_in_circle_segment(o, pt(10, 0), pt(0, 10), pt(3, -1), 10));
}

#[test]
fn bounding_rect_corners() {
    let r = BoundingRect::from_corners(pt(5, -2), pt(-1, 7));
    assert_eq!(r.lower, pt(-1, -2));
    assert_eq!(r.upper, pt(5, 7));
    assert!(r.contains_point(pt(5, 7)));
    assert!(!r.contains_point(pt(6, 0)));
}

#[test]
fn subdivision_connect_orders_neighbours() {
    let mut s = PlanarSubdivision::new();
    let c = s.insert_vertex(pt(0, 0), ());
    let e = s.insert_vertex(pt(10, 0), ());
    let n = s.insert_vertex(pt(0, 10), ());
    let w = s.insert_vertex(pt(-10, 0), ());
    let so = s.insert_vertex(pt(0, -10), ());
    s.connect(c, so);
    s.connect(c, w);
    s.connect(c, e);
    s.connect(c, n);
    // counterclockwise from the positive x axis
    assert_eq!(s.neighbors(c), &vec![e, n, w, so]);
    assert_eq!(s.cw_neighbor_of(c, e), so);
    assert_eq!(s.ccw_neighbor_of(c, e), n);
    assert_eq!(s.ccw_neighbor_of(c, so), e);
    // turning clockwise around the centre
    assert_eq!(s.cw_fan(c, n, so), Some(vec![n, e, so]));
    assert_eq!(s.cw_fan(c, n, n), Some(vec![n]));
    assert_eq!(s.cw_fan(c, e, c), None);
    // connecting twice changes nothing
    s.connect(c, e);
    assert_eq!(s.neighbors(c).len(), 4);
    assert!(s.disconnect(c, n));
    assert!(!s.disconnect(c, n));
    assert_eq!(s.neighbors(c), &vec![e, w, so]);
    assert_eq!(s.neighbors(n), &Vec::<usize>::new());
}

#[test]
fn subdivision_flip() {
    // two triangles (0, 1, 2) and (0, 2, 3) sharing the edge 0 - 2
    let mut s = PlanarSubdivision::new();
    let a = s.insert_vertex(pt(0, 0), ());
    let b = s.insert_vertex(pt(10, -1), ());
    let c = s.insert_vertex(pt(20, 0), ());
    let d = s.insert_vertex(pt(10, 1), ());
    s.connect(a, b);
    s.connect(b, c);
    s.connect(c, d);
    s.connect(d, a);
    s.connect(a, c);
    assert!(s.is_flippable(a, c));
    s.flip_edge_cw(a, c);
    assert!(!s.is_connected(a, c));
    assert!(s.is_connected(b, d));
    assert!(!s.is_flippable(a, b));
}

#[test]
fn flipping_a_long_diagonal_makes_the_quad_delaunay() {
    // a thin kite: the long diagonal 0 - 2 has the far corner inside the
    // circumcircles of its triangles, the short one 1 - 3 has not
    let mut s = PlanarSubdivision::new();
    let a = s.insert_vertex(pt(0, 0), ());
    let b = s.insert_vertex(pt(10, -3), ());
    let c = s.insert_vertex(pt(20, 0), ());
    let d = s.insert_vertex(pt(10, 3), ());
    s.connect(a, b);
    s.connect(b, c);
    s.connect(c, d);
    s.connect(d, a);
    s.connect(a, c);
    let mut t = DelaunayTriangulation { s, tolerance: 0 };
    assert_eq!(t.triangles().count(), 2);
    assert!(!t.is_delaunay());
    t.s.flip_edge_cw(a, c);
    assert!(t.s.is_connected(b, d));
    assert!(t.is_delaunay());
}

#[test]
fn vertices_hold_their_values() {
    let mut s = PlanarSubdivision::new();
    let a = s.insert_vertex(pt(0, 0), "first");
    let b = s.insert_vertex(pt(5, 5), "second");
    assert_eq!(*s.vertex_data(a), "first");
    assert_eq!(*s.vertex_data(b), "second");
    s.update_vertex(a, "changed");
    assert_eq!(*s.vertex_data(a), "changed");
    assert_eq!(s.position(a), pt(0, 0));
    assert_eq!(*s.vertex_data(b), "second");
}

#[test]
fn reinserting_a_point_replaces_its_value() {
    let mut d = DelaunayTriangulation::new();
    let points = [pt(0, 0), pt(10, 0), pt(0, 10), pt(10, 10), pt(3, 4)];
    for (i, p) in points.iter().enumerate() {
        d.insert(*p, i as u32).unwrap();
    }
    // among the first three points, and once the triangulation is built
    d.insert(pt(10, 0), 100).unwrap();
    d.insert(pt(3, 4), 200).unwrap();
    assert_eq!(d.num_vertices(), 5);
    let h = d.lookup(pt(10, 0)).unwrap();
    assert_eq!(*d.subdiv().vertex_data(h), 100);
    let h = d.lookup(pt(3, 4)).unwrap();
    assert_eq!(*d.s.vertex_data(h), 200);
    let h = d.lookup(pt(0, 10)).unwrap();
    assert_eq!(*d.s.vertex_data(h), 2);
}

#[test]
fn new_vertex_joins_the_triangle_it_falls_into() {
    let mut d = DelaunayTriangulation::new();
    for p in [pt(0, 0), pt(30, 0), pt(0, 30)] {
        d.insert(p, ()).unwrap();
    }
    d.insert(pt(5, 5), ()).unwrap();
    let h = d.lookup(pt(5, 5)).unwrap();
    assert_eq!(h, 3);
    for v in 0..3 {
        assert!(d.s.is_connected(h, v));
    }
    // on the edge 0 - 1: the edge is split
    d.insert(pt(15, 0), ()).unwrap();
    let e = d.lookup(pt(15, 0)).unwrap();
    assert!(d.s.is_connected(e, 0));
    assert!(d.s.is_connected(e, 1));
    assert!(!d.s.is_connected(0, 1));
    assert!(d.is_delaunay());
}

#[test]
fn natural_neighbours_of_a_point() {
    let mut d = DelaunayTriangulation::new();
    for p in [pt(0, 0), pt(100, 0), pt(0, 100), pt(100, 100), pt(200, 50)] {
        d.insert(p, ()).unwrap();
    }
    let p = pt(60, 50);
    let loc = d.get_position_in_triangulation(0, p).unwrap();
    let (a, b, c) = match loc {
        spade::walk::PositionInTriangulation::InTriangle(a, b, c) => (a, b, c),
        other => panic!("unexpected {:?}", other),
    };
    let mut nns = d.get_natural_neighbors(a, b, c, p).unwrap();
    nns.sort();
    // every vertex except the far one at (200, 50) has a Voronoi cell
    // that the point would take a part of
    assert_eq!(nns, vec![0, 1, 2, 3]);
}

#[test]
fn triangles_in_order() {
    let mut d = DelaunayTriangulation::new();
    for p in [pt(0, 0), pt(10, 0), pt(10, 10), pt(20, 10)] {
        d.insert(p, ()).unwrap();
    }
    let mut it = d.triangles();
    let mut found = vec![];
    while let Some(t) = it.next() {
        found.push(t.0);
    }
    assert_eq!(found, vec![[0, 1, 2], [1, 3, 2]]);
}

#[test]
fn outside_point_joins_the_hull_vertices_it_sees() {
    let mut d = DelaunayTriangulation::new();
    for p in [pt(0, 0), pt(10, 0), pt(0, 10), pt(10, 10)] {
        d.insert(p, ()).unwrap();
    }
    d.insert(pt(30, 5), ()).unwrap();
    let h = d.lookup(pt(30, 5)).unwrap();
    let right_bottom = d.lookup(pt(10, 0)).unwrap();
    let right_top = d.lookup(pt(10, 10)).unwrap();
    assert!(d.s.is_connected(h, right_bottom));
    assert!(d.s.is_connected(h, right_top));
    assert!(!d.s.is_connected(h, d.lookup(pt(0, 0)).unwrap()));
    assert!(!d.s.is_connected(h, d.lookup(pt(0, 10)).unwrap()));
    assert!(d.is_delaunay());
}

#[test]
fn first_triangle_is_delaunay() {
    let mut d = DelaunayTriangulation::new();
    assert!(d.is_delaunay());
    for p in [pt(0, 0), pt(40, 3), pt(7, 25)] {
        d.insert(p, ()).unwrap();
        assert!(d.is_delaunay());
    }
    assert_eq!(d.triangles().count(), 1);
}

#[test]
fn located_triangle_holds_the_point() {
    let mut d = DelaunayTriangulation::new();
    for p in [pt(0, 0), pt(100, 0), pt(0, 100), pt(100, 100), pt(50, 130)] {
        d.insert(p, ()).unwrap();
    }
    let p = pt(70, 60);
    match d.get_position_in_triangulation(0, p) {
        Some(spade::walk::PositionInTriangulation::InTriangle(a, b, c)) => {
            let (pa, pb, pc) = (d.s.position(a), d.s.position(b), d.s.position(c));
            assert!(spade::geometry::signed_side(pa, pb, p) > 0);
            assert!(spade::geometry::signed_side(pc, pa, p) >= 0);
            assert!(spade::geometry::signed_side(pc, pb, p) <= 0);
        }
        other => panic!("unexpected {:?}", other),
    }
}

#[test]
fn lookup_in_circle_with_a_far_centre() {
    let mut d = DelaunayTriangulation::new();
    for p in [pt(0, 0), pt(10, 0), pt(0, 10)] {
        d.insert(p, ()).unwrap();
    }
    let far = pt(4_000_000_000_000_000_000, 0);
    assert_eq!(d.lookup_in_circle(far, i128::MAX), vec![0, 1, 2]);
    assert_eq!(d.lookup_in_circle(far, 0), Vec::<usize>::new());
    assert_eq!(d.lookup_in_circle(pt(i64::MIN, i64::MIN), -1), Vec::<usize>::new());
    // squared distance from (10, 0) is (4e18 - 10)^2
    let r2: i128 = (4_000_000_000_000_000_000i128 - 10) * (4_000_000_000_000_000_000i128 - 10);
    assert_eq!(d.lookup_in_circle(far, r2), vec![1]);
}

#[test]
fn lookup_returns_the_lowest_handle() {
    let mut d = DelaunayTriangulation::new();
    for p in [pt(0, 0), pt(10, 0), pt(0, 10), pt(3, 3)] {
        d.insert(p, ()).unwrap();
    }
    let before = d.lookup(pt(3, 3));
    d.set_tolerance(5);
    assert_eq!(d.lookup(pt(3, 3)), before);
    assert_eq!(before, Some(3));
}

#[test]
fn empty_circle_after_insertion_needs_a_real_triangulation() {
    // Four points in general position, triangulated by insertion.
    let mut d = DelaunayTriangulation::new();
    for p in [pt(-28, 21), pt(17, 11), pt(19, 4), pt(2, -16)] {
        d.insert(p, ()).unwrap();
    }
    assert!(d.is_delaunay());
    // Without the edge 1 - 2 the neighbour lists still meet the invariant and
    // pass the empty-circle test, but no longer form a triangulation ...
    assert!(d.s.disconnect(2, 1));
    assert!((0..d.num_vertices()).all(|v| d.s.neighbors(v).len() > 0));
    assert!(d.is_delaunay());
    // ... and inserting a fifth point in general position, with tolerance 0,
    // leaves a triangle with a vertex inside its circumcircle.
    assert_eq!(d.tolerance, 0);
    d.insert(pt(-16, 10), ()).unwrap();
    assert!(!d.is_delaunay());
}
