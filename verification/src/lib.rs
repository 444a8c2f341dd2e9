//! Transforms from every entity of a scene tree into the coordinate frame of
//! a chosen reference entity, with the reason for each entity that cannot be
//! reached.
//!
//! The scene is an [`entity_tree::EntityTree`]: every entity has a path, may
//! have a logged transform that relates it to its parent, and has children.
//! [`transform_cache::TransformCache::determine_transforms`] walks the tree
//! from the reference down and up, and keeps for each entity it reaches the
//! transform into the reference's space. What the walk leaves in the cache
//! is defined in [`traversal`], and [`laws`] states what follows for every
//! cache.

pub mod affine;
pub mod ascent;
pub mod descent;
pub mod entity_path;
pub mod entity_tree;
pub mod growth;
pub mod int_map;
pub mod laws;
pub mod memory_limit;
pub mod resolve;
pub mod separation;
pub mod transform_cache;
pub mod traversal;
pub mod unreachable;
