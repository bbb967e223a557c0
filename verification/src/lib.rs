//! Verified combinatorial core of a fast-multipole / RBF / isosurface toolkit:
//! Morton keys for linear trees, lattice-edge topology for regularised marching
//! tetrahedra, and the integer bookkeeping around mesh capping and clustering.

pub mod aabb_clipping;
pub mod bitmask;
pub mod boundary_closure;
pub mod cap_selection;
pub mod chebyshev;
pub mod config;
pub mod kdtree;
pub mod interaction_lists;
pub mod isosurface;
pub mod lattice;
pub mod linalg;
pub mod linear_tree;
pub mod mesh_intersections;
pub mod morton;
pub mod topology;
pub mod utils;
