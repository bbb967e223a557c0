# ferreus

The combinatorial core of a fast-multipole, radial-basis-function and isosurface
toolkit, written in Verus and proved against its specifications.

## Layout

`src/` is the verified library:

- `morton` — Morton (Z-order) keys of linear binary trees, quadtrees and octrees:
  encoding and decoding, parents, ancestors, children, siblings and neighbours.
- `linear_tree` — refinement of a linear tree from the points' keys (adaptive or
  regular, with or without empty leaves), the interaction lists of the result, and the
  assignment of points to leaves; the leaves are proved to partition the points.
- `interaction_lists` — U-, V-, W- and X-lists of adaptive and regular trees, with
  cell adjacency supplied by the caller.
- `chebyshev` — multi-index bookkeeping of the Chebyshev interpolation operators, the
  M2L transfer vectors and the symmetry lookup tables of the M2L operators.
- `utils` — stable argsort, sorting and cartesian products.
- `linalg` — index logic of packed symmetric storage: Rectangular Full Packed format
  (proved a one-to-one correspondence between a triangle and its array) and column-major
  packing of a lower triangle (packing and unpacking undo each other).
- `lattice`, `topology`, `isosurface` — lattice edges, cluster topology and edge
  bookkeeping of the regularised marching-tetrahedra isosurface extraction.
- `boundary_closure`, `cap_selection` — box faces, face masks, open boundary edges and
  the flood fill that selects the triangles capping a clipped surface.
- `mesh_intersections` — the decisions that separate true self-intersections from mesh
  adjacency.
- `config` — configuration enums and the size of the polynomial drift basis (proved to
  count the monomials of the drift's degree).
- `bitmask`, `aabb_clipping`, `kdtree` — small types.

`app/` is ordinary Rust around the library: the floating-point geometry that locates
points and cells in world space (and so builds a tree over a point cloud), the
triangle-triangle intersection test, and the box-face classification of boundary edges.

`tests/` exercises the library on concrete inputs; the mesh self-intersection scenarios
compute their geometric predicates in floating point there and let the library classify
the pairs.
