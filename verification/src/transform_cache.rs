//! The transform cache: for every entity that can be reached from a chosen
//! reference entity, the transform from the entity's space into the space of
//! the reference, and for the others the reason why there is none.
//!
//! A cache is built in one go for one reference and one state of the scene
//! tree, and only read afterwards.

use vstd::prelude::*;
use nohash_hasher::IntMap;
use crate::affine::{compose, identity, invert, is_identity};
use crate::entity_path::EntityPath;
use crate::entity_tree::EntityTree;
use crate::int_map;
use crate::laws::law_reference_at_origin;
use crate::resolve::{transform_at, ImagePlaneDistance};
use crate::traversal::{
    ascended, determined, empty_cache, gathered, gathered_children, visited, CacheView,
};
use crate::unreachable::UnreachableTransform;

verus! {

/// The transforms from the entities of a scene into the space of a reference
/// entity.
#[derive(Clone)]
pub struct TransformCache {
    /// All transforms lead into the space of the entity at this path.
    reference_path: EntityPath,
    /// The transform of every reached entity, under the entity's hash.
    reference_from_entity_per_entity: IntMap<u64, glam::Affine3A>,
    /// The entities at which a branch below a reached entity ended.
    unreachable_descendants: Vec<(EntityPath, UnreachableTransform)>,
    /// The first ancestor of the reference that could not be reached.
    first_unreachable_parent: Option<(EntityPath, UnreachableTransform)>,
}

/// An entry of the list of unreachable entities, with the path as the
/// sequence of its hashes.
pub open spec fn entry_view(entry: (EntityPath, UnreachableTransform)) -> (
    Seq<u64>,
    UnreachableTransform,
) {
    (entry.0@, entry.1)
}

/// An optional entry, with the path as the sequence of its hashes.
pub open spec fn optional_entry_view(entry: Option<(EntityPath, UnreachableTransform)>) -> Option<
    (Seq<u64>, UnreachableTransform),
> {
    match entry {
        Some(e) => Some(entry_view(e)),
        None => None,
    }
}

/// The entries of a list of unreachable entities, each with the path as the
/// sequence of its hashes.
pub open spec fn entries_view(entries: Seq<(EntityPath, UnreachableTransform)>) -> Seq<
    (Seq<u64>, UnreachableTransform),
> {
    entries.map_values(|entry: (EntityPath, UnreachableTransform)| entry_view(entry))
}

impl View for TransformCache {
    type V = CacheView;

    closed spec fn view(&self) -> CacheView {
        CacheView {
            reference_path: self.reference_path@,
            reference_from_entity: self.reference_from_entity_per_entity@,
            unreachable_descendants: entries_view(self.unreachable_descendants@),
            first_unreachable_parent: optional_entry_view(self.first_unreachable_parent),
        }
    }
}

impl TransformCache {
    /// A cache for the given reference that holds nothing yet.
    pub fn new(reference_path: EntityPath) -> (cache: TransformCache)
        ensures
            cache@ == empty_cache(reference_path@),
    {
        let cache = TransformCache {
            reference_path,
            reference_from_entity_per_entity: int_map::empty(),
            unreachable_descendants: Vec::new(),
            first_unreachable_parent: None,
        };
        cache
    }

    /// Builds the cache for the reference at `space_path` in the tree
    /// `tree`, which is taken from its root.
    ///
    /// The reference gets the identity transform, and every other entity the
    /// transform that leads from its space into the reference's. The
    /// traversal goes down from the reference first and then up through its
    /// ancestors, into each ancestor's other branches. If the tree does not
    /// hold the reference, the cache stays empty.
    pub fn determine_transforms(tree: &EntityTree, space_path: &EntityPath) -> (cache:
        TransformCache)
        ensures
            exists|origin: glam::Affine3A|
                is_identity(origin) && cache@ == determined(*tree, space_path@, origin),
            tree.subtree_at(space_path@) is Some ==> cache@.reference_from_entity.contains_key(
                space_path@.last(),
            ) && is_identity(cache@.reference_from_entity[space_path@.last()]),
            tree.subtree_at(space_path@) is None ==> cache@ == empty_cache(space_path@),
    {
        let mut transforms = TransformCache::new(space_path.clone());
        let origin = identity();

        let Some(reference_tree) = tree.subtree(space_path) else {
            return transforms;
        };
        proof {
            law_reference_at_origin(*tree, space_path@, origin);
        }

        transforms.gather_descendants_transforms(reference_tree, origin, false);

        let mut encountered_pinhole = false;
        let mut reference_from_ancestor = origin;
        let mut current_path = space_path.clone();
        loop
            invariant
                determined(*tree, space_path@, origin) == ascended(
                    *tree,
                    current_path@,
                    reference_from_ancestor,
                    encountered_pinhole,
                    transforms@,
                ),
            ensures
                transforms@ == determined(*tree, space_path@, origin),
            decreases current_path@.len(),
        {
            let Some(parent_path) = current_path.parent() else {
                break ;
            };
            // A tree holds the parent of every path that it holds. Should one
            // be missing all the same, the cache stays as far as it was built.
            let Some(parent_tree) = tree.subtree(&parent_path) else {
                break ;
            };
            match transform_at(
                &parent_tree.transform,
                ImagePlaneDistance::Fixed,
                &mut encountered_pinhole,
            ) {
                Err(unreachable_reason) => {
                    transforms.first_unreachable_parent = Some(
                        (parent_tree.path.clone(), unreachable_reason),
                    );
                    break ;
                },
                Ok(None) => {},
                Ok(Some(grandparent_from_parent)) => {
                    reference_from_ancestor = compose(
                        reference_from_ancestor,
                        invert(grandparent_from_parent),
                    );
                },
            }
            transforms.gather_descendants_transforms(
                parent_tree,
                reference_from_ancestor,
                encountered_pinhole,
            );
            current_path = parent_path;
        }
        transforms
    }

    /// Gathers the subtree `tree` into the cache, where `reference_from_entity`
    /// leads from the space of the tree's top entity into the reference's.
    ///
    /// `encountered_pinhole` says whether a pinhole camera lies between the
    /// reference and the top entity. Nothing happens if the cache holds the
    /// top entity already.
    pub fn gather_descendants_transforms(
        &mut self,
        tree: &EntityTree,
        reference_from_entity: glam::Affine3A,
        encountered_pinhole: bool,
    )
        ensures
            final(self)@ == gathered(*tree, reference_from_entity, encountered_pinhole, old(self)@),
        decreases *tree,
    {
        let hash = tree.path.hash64();
        if int_map::contains_key(&self.reference_from_entity_per_entity, hash) {
            return ;
        }
        int_map::insert(&mut self.reference_from_entity_per_entity, hash, reference_from_entity);
        let ghost entered = self@;

        let mut i: usize = 0;
        while i < tree.children.len()
            invariant
                i <= tree.children.len(),
                self@ == gathered_children(
                    *tree,
                    i as int,
                    reference_from_entity,
                    encountered_pinhole,
                    entered,
                ),
            decreases tree.children.len() - i,
        {
            let child_tree = &tree.children[i];
            let ghost before = self@;
            let mut crossed = encountered_pinhole;
            match transform_at(&child_tree.transform, ImagePlaneDistance::OfEntity, &mut crossed) {
                Err(unreachable_reason) => {
                    self.unreachable_descendants.push((child_tree.path.clone(), unreachable_reason));
                },
                Ok(None) => {
                    self.gather_descendants_transforms(child_tree, reference_from_entity, crossed);
                },
                Ok(Some(parent_from_child)) => {
                    self.gather_descendants_transforms(
                        child_tree,
                        compose(reference_from_entity, parent_from_child),
                        crossed,
                    );
                },
            }
            assert(self@ == visited(
                *child_tree,
                reference_from_entity,
                encountered_pinhole,
                before,
            ));
            i += 1;
        }
    }

    /// The path of the reference entity.
    pub fn reference_path(&self) -> (path: &EntityPath)
        ensures
            path@ == self@.reference_path,
    {
        &self.reference_path
    }

    /// The transform from the entity's space into the space of the
    /// reference, or `None` if the entity was not reached.
    pub fn reference_from_entity(&self, entity_path: &EntityPath) -> (transform: Option<
        glam::Affine3A,
    >)
        ensures
            transform == (if self@.reference_from_entity.contains_key(entity_path@.last()) {
                Some(self@.reference_from_entity[entity_path@.last()])
            } else {
                None
            }),
    {
        match int_map::get(&self.reference_from_entity_per_entity, entity_path.hash64()) {
            Some(transform) => Some(*transform),
            None => None,
        }
    }

    /// The entities at which a branch below a reached entity ended, in the
    /// order in which the traversal met them, each with the reason.
    pub fn unreachable_descendants(&self) -> (entries: &Vec<(EntityPath, UnreachableTransform)>)
        ensures
            entries_view(entries@) == self@.unreachable_descendants,
    {
        &self.unreachable_descendants
    }

    /// The first ancestor of the reference that could not be reached, with
    /// the reason, if the way up ended before the root.
    pub fn first_unreachable_parent(&self) -> (entry: &Option<(EntityPath, UnreachableTransform)>)
        ensures
            optional_entry_view(*entry) == self@.first_unreachable_parent,
    {
        &self.first_unreachable_parent
    }
}

} // verus!
