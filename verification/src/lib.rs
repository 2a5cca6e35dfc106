//! A sparse octree over the unit cube.
//!
//! Callers paint axis-aligned boxes with a value; the tree keeps one leaf per
//! painted cell and collapses eight equal siblings into their parent.
//!
//! Coordinates are whole numbers of units, of which the unit cube has 2^32
//! along each axis, and location codes are kept in 64 bits, so a tree has
//! at most 21 levels below its root.
//!
//! The engine:
//! - `orientation`: the tags of the octants and how they join;
//! - `loc_code`, `code_ops`: location codes, their levels and centers;
//! - `aabb`: boxes, and the cuts that sort a box into octants;
//! - `node`, `octree`: leaves and the store that holds them;
//! - `merge`: painting a box, and collapsing what became uniform;
//! - `dot_vox`: trees from voxel models set into a frame;
//! - `index`, `sort`: the hash table and the sort that the store and the
//!   painting rest on.
//!
//! What the engine computes, and what holds of it:
//! - `paint`: the leaves after a painting, as a mathematical map;
//! - `laws`: painting leaves no group of eight equal siblings; painting
//!   twice what collapses nothing; mapping values to themselves;
//! - `cells`: cells as boxes; a box within one cell of the deepest level
//!   becomes one leaf;
//! - `repaint`: what a painting leaves behind when only painted leaves
//!   collapse, and why painting it again then changes nothing;
//! - `tiling`, `volume`: boxes on the grid of the deepest level are tiled
//!   by their leaves, and boxes that fill the unit cube leave leaves with
//!   the volume of the unit cube.
pub mod aabb;
pub mod cells;
pub mod code_ops;
pub mod dot_vox;
pub mod error;
pub mod index;
pub mod laws;
pub mod loc_code;
pub mod merge;
pub mod node;
pub mod octree;
pub mod orientation;
pub mod paint;
pub mod repaint;
pub mod sort;
pub mod tiling;
pub mod volume;

pub use aabb::{Plane, AABB};
pub use error::OctreeError;
pub use loc_code::LocCode;
pub use node::OctreeNode;
pub use octree::Octree;
pub use orientation::Orientation;
