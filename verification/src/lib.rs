//! Directory-tree model behind the storytree visualiser: paths, the branch
//! table built from a directory walk, subtree counting and child ordering,
//! and the integer parts of the mesh generation.

pub mod paths;
pub mod building;
pub mod database;
pub mod forest;
pub mod generator;
pub mod listing;
pub mod sorting;
pub mod spiral;
pub mod treebuilder;
