//! Verified core of a voxel viewer for implicit surfaces: a compact bitset
//! of slot indices, the composing of per-expression sign grids into a voxel
//! grid, the faces, corner shading and triangles of the grid's surface, and
//! the structure of expression trees for multi-level evaluation.
use vstd::prelude::*;

pub mod bits;
pub mod index_set;
pub mod index_set_elems;
pub mod index_set_ops;
pub mod index_set_shift;
pub mod index_set_cmp;
pub mod index_set_iter;
pub mod index_set_order;
pub mod index_set_conv;
pub mod index_set_laws;
pub mod color;
pub mod voxel;
pub mod mesh;
pub mod config;
pub mod chunks;
pub mod expr_tree;
pub mod expr_levels;
pub mod expr_cse;

verus! {

} // verus!

