# hypervox

The verified core of a viewer for implicit surfaces of N-dimensional
expressions: each expression is sampled on a lattice, the voxels its surface
crosses are colored, and the surface of the voxel grid is turned into a mesh
with ambient occlusion.

`src/` is verified with Verus:

- `index_set*`, `bits`: `IndexSet`, a bitset of slot indices kept in a 32-,
  64- or 128-bit word or in a vector of 64-bit chunks, with its iterator,
  set operations, shifts, order, and the laws that relate them
  (`index_set_laws`).
- `color`: packing an RGB color and a "filled" marker into one word.
- `voxel`: composing the sign grids of several expressions into a voxel grid,
  whole or range by range.
- `mesh`: which faces of the voxel grid are drawn, their corner occlusion,
  their triangles, and putting meshes built apart together.
- `chunks`: cutting work into one run per worker thread.
- `config`: the viewer's settings and the status of a generation run.
- `expr_tree`, `expr_levels`, `expr_cse`: expression trees (their
  variables, shared slots and alias folding), the elimination of repeated
  sub-trees into shared slots (`Node::cse`), and multi-level hoisting
  (`Node::hoist_levels`): for each invariance mask over the spatial
  dimensions, the sub-trees that do not depend on it are taken out into
  slots filled once per step of an outer loop.

`app/` holds what stays outside the proofs: floating-point sampling and
shading, the parallel drivers, timing, and `engine`, which compiles trees to
closures over `f64` after the library's elimination and hoisting. Parsing
an expression is not part of this crate: `app/` takes a parse function that
gives a tree with the table of functions its indices name.
