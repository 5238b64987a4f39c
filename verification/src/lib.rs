//! Splitting a block of changed files into several commits: the tree of
//! changed paths with its three-state selection, the navigator that walks
//! it, and the plan of version-control commands that carries a selection out.

pub mod count;
pub mod git_helper;
pub mod insertion;
pub mod laws;
pub mod navigator;
pub mod path;
pub mod selection;
pub mod shape;
pub mod text;
pub mod tree;
pub mod update;
