# spade

An incremental Delaunay triangulation of points with integer coordinates,
verified with Verus. Each vertex holds a value of the caller's type.

Points are inserted one at a time. A point is located by walking through the
triangulation from the nearest vertex; it is then connected to the corners of
the triangle it falls into, to the ends of the edge it lies on, or to the
convex hull vertices it sees, and the edges opposite it are examined with the
in-circle test and flipped where the test fails. All geometric predicates are
exact: they are computed on `i128` from coordinates bounded by `COORD_LIMIT`.

What the proofs cover: the structure of the neighbour lists (symmetric,
without repetitions, sorted counterclockwise) is kept by every operation;
each operation's result is given exactly; an insertion keeps earlier vertices
and their handles, finds a point that is already present, joins the new
vertex to the vertices around it and creates no other edge. With a
nonnegative tolerance and distinct positions, a proper triangle reported by
the point location holds the point, up to the tolerance, and the chain of
hull vertices found for an outside point runs along edges that the point
sees, in the walking direction. The triangle enumeration reports exactly
the counterclockwise triangles of the subdivision, each once, in order of
their smallest vertex. The walks are bounded, and a proof shows that they
give up only where they would go on forever.

Whether a triangulation has the empty-circle property is computed by
`DelaunayTriangulation::is_delaunay`, whose result is proved to match the
property. That every insertion keeps the property is not proved. It does not
follow from the structural invariant: a test removes one edge of a Delaunay
triangulation, which keeps the invariant and the empty-circle property, and
the next insertion of a point in general position breaks the property. A
proof would need an invariant saying that the lists form a planar
triangulation, kept by every flip; the tests check the property on concrete
inputs instead.

Layout:

- `src/geometry.rs`: points, exact orientation, distance and in-circle tests.
- `src/subdivision.rs`: the planar subdivision, whose neighbour lists are kept
  in counterclockwise order, with the vertex values; connecting,
  disconnecting and flipping edges.
- `src/angles.rs`: directions around a vertex and the sectors between its
  neighbours.
- `src/walk.rs`: the walk that locates a point.
- `src/hull.rs`: the walk along the convex hull.
- `src/insertion.rs`: the effect of an insertion on the neighbour lists.
- `src/triangles.rs`: enumeration of the triangles and the empty-circle check.
- `src/delaunay.rs`: the triangulation itself.
- `tests/`: scenarios, run with the crate compiled.
- `app/`: natural neighbour interpolation, which computes with floating-point
  circumcentres and so stands outside the verified library.
