//! What a traversal of the scene tree leaves in the cache, as functions on
//! mathematical values.
//!
//! A traversal goes down from the reference entity into its subtree and then
//! up, ancestor by ancestor, and down again into each ancestor's other
//! branches. The functions here say what the cache holds after each of these
//! parts. The executable traversal is proved to compute them.

use vstd::prelude::*;
use crate::affine::{composed, inverted};
use crate::entity_tree::EntityTree;
use crate::resolve::{crossed_pinhole, resolved, ImagePlaneDistance};
use crate::unreachable::UnreachableTransform;

verus! {

/// What a transform cache holds. An entity stands in the map under its hash;
/// a path is the sequence of hashes from the root to the entity.
#[verifier::ext_equal]
pub struct CacheView {
    /// The path of the reference entity.
    pub reference_path: Seq<u64>,
    /// For each entity that was reached, the transform from its space into
    /// the space of the reference.
    pub reference_from_entity: Map<u64, glam::Affine3A>,
    /// The entities below a reached entity at which a branch ended, in the
    /// order in which they were met, each with the reason.
    pub unreachable_descendants: Seq<(Seq<u64>, UnreachableTransform)>,
    /// The first ancestor of the reference that could not be reached, with
    /// the reason.
    pub first_unreachable_parent: Option<(Seq<u64>, UnreachableTransform)>,
}

/// The cache for a reference from which nothing was traversed yet.
pub open spec fn empty_cache(reference_path: Seq<u64>) -> CacheView {
    CacheView {
        reference_path,
        reference_from_entity: Map::empty(),
        unreachable_descendants: Seq::empty(),
        first_unreachable_parent: None,
    }
}

/// The cache after the step from a reached parent, whose space has the
/// transform `reference_from_parent` into the reference's, to one of its
/// children.
///
/// If the child's logged transform cannot be resolved, the child is noted as
/// unreachable and nothing below it is visited. Otherwise the child's subtree
/// is gathered with the child's own transform into the reference.
pub open spec fn visited(
    child: EntityTree,
    reference_from_parent: glam::Affine3A,
    encountered_pinhole: bool,
    cache: CacheView,
) -> CacheView
    decreases child, child.children.len() + 2,
{
    let flag = crossed_pinhole(child.transform, encountered_pinhole);
    match resolved(child.transform, ImagePlaneDistance::OfEntity, encountered_pinhole) {
        Err(reason) => CacheView {
            unreachable_descendants: cache.unreachable_descendants.push((child.path@, reason)),
            ..cache
        },
        Ok(None) => gathered(child, reference_from_parent, flag, cache),
        Ok(Some(parent_from_child)) => gathered(
            child,
            composed(reference_from_parent, parent_from_child),
            flag,
            cache,
        ),
    }
}

/// The cache after the first `n` children of `tree` were visited in turn,
/// starting from `cache`.
pub open spec fn gathered_children(
    tree: EntityTree,
    n: int,
    reference_from_entity: glam::Affine3A,
    encountered_pinhole: bool,
    cache: CacheView,
) -> CacheView
    decreases tree, n,
{
    if n <= 0 || n > tree.children.len() {
        cache
    } else {
        visited(
            tree.children[n - 1],
            reference_from_entity,
            encountered_pinhole,
            gathered_children(tree, n - 1, reference_from_entity, encountered_pinhole, cache),
        )
    }
}

/// The cache after gathering the subtree `tree`, whose top entity has the
/// transform `reference_from_entity` into the reference's space.
///
/// An entity that the cache holds already is left as it is, with all below
/// it. Otherwise the entity enters the cache and its children are visited in
/// their order.
pub open spec fn gathered(
    tree: EntityTree,
    reference_from_entity: glam::Affine3A,
    encountered_pinhole: bool,
    cache: CacheView,
) -> CacheView
    decreases tree, tree.children.len() + 1,
{
    if cache.reference_from_entity.contains_key(tree.path.hash) {
        cache
    } else {
        gathered_children(
            tree,
            tree.children.len() as int,
            reference_from_entity,
            encountered_pinhole,
            CacheView {
                reference_from_entity: cache.reference_from_entity.insert(
                    tree.path.hash,
                    reference_from_entity,
                ),
                ..cache
            },
        )
    }
}

/// The cache after the way up from the entity at `current`, whose space has
/// the transform `reference_from_current` into the reference's, to the root.
///
/// Each step goes to the parent and resolves the parent's logged transform
/// with the fixed image plane distance. Where that fails, the parent is
/// noted as the first unreachable one and the way up ends. Otherwise the
/// transform is inverted and joined to those collected so far, and the
/// parent's subtree is gathered. The way up also ends where the tree does not
/// hold the parent.
pub open spec fn ascended(
    root: EntityTree,
    current: Seq<u64>,
    reference_from_current: glam::Affine3A,
    encountered_pinhole: bool,
    cache: CacheView,
) -> CacheView
    decreases current.len(),
{
    if current.len() <= 1 {
        cache
    } else {
        match root.subtree_at(current.drop_last()) {
            None => cache,
            Some(parent) => {
                let flag = crossed_pinhole(parent.transform, encountered_pinhole);
                match resolved(parent.transform, ImagePlaneDistance::Fixed, encountered_pinhole) {
                    Err(reason) => CacheView {
                        first_unreachable_parent: Some((parent.path@, reason)),
                        ..cache
                    },
                    Ok(None) => ascended(
                        root,
                        current.drop_last(),
                        reference_from_current,
                        flag,
                        gathered(parent, reference_from_current, flag, cache),
                    ),
                    Ok(Some(grandparent_from_parent)) => ascended(
                        root,
                        current.drop_last(),
                        composed(reference_from_current, inverted(grandparent_from_parent)),
                        flag,
                        gathered(
                            parent,
                            composed(reference_from_current, inverted(grandparent_from_parent)),
                            flag,
                            cache,
                        ),
                    ),
                }
            },
        }
    }
}

/// The cache for the reference at `reference_path` in the tree `root`, where
/// `origin` is the transform given to the reference itself.
///
/// If the tree does not hold the reference, the cache stays empty. Otherwise
/// the reference's subtree is gathered first, and then the way up is taken.
pub open spec fn determined(
    root: EntityTree,
    reference_path: Seq<u64>,
    origin: glam::Affine3A,
) -> CacheView {
    match root.subtree_at(reference_path) {
        None => empty_cache(reference_path),
        Some(reference) => ascended(
            root,
            reference_path,
            origin,
            false,
            gathered(reference, origin, false, empty_cache(reference_path)),
        ),
    }
}

} // verus!
