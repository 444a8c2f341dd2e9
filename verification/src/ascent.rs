//! The way up from the reference: where it ends, and what it leaves in the
//! cache.

use vstd::prelude::*;
use crate::affine::{composed, inverted};
use crate::descent::{holds_branch, lemma_carried, lemma_gathered_branch_beside};
use crate::entity_tree::EntityTree;
use crate::growth::{lemma_children_grow, lemma_gathered_grows};
use crate::resolve::{crossed_pinhole, resolved, ImagePlaneDistance};
use crate::traversal::{ascended, gathered, CacheView};
use crate::unreachable::UnreachableTransform;

verus! {

/// Where a way up ends.
pub struct WayUp {
    /// The path of the last entity whose subtree was gathered, or of the
    /// entity from which the way started if it made no step.
    pub reached: Seq<u64>,
    /// The parent of that entity with the reason for which it was not
    /// resolved, if that is why the way ended.
    pub failure: Option<(Seq<u64>, UnreachableTransform)>,
}

/// Where the way up from the entity at `current` ends. It ends at the root,
/// at an entity whose parent the tree does not hold, or below a parent whose
/// logged transform is not resolved.
pub open spec fn way_up(root: EntityTree, current: Seq<u64>, encountered_pinhole: bool) -> WayUp
    decreases current.len(),
{
    if current.len() <= 1 {
        WayUp { reached: current, failure: None }
    } else {
        match root.subtree_at(current.drop_last()) {
            None => WayUp { reached: current, failure: None },
            Some(parent) => match resolved(
                parent.transform,
                ImagePlaneDistance::Fixed,
                encountered_pinhole,
            ) {
                Err(reason) => WayUp { reached: current, failure: Some((parent.path@, reason)) },
                Ok(_) => way_up(
                    root,
                    current.drop_last(),
                    crossed_pinhole(parent.transform, encountered_pinhole),
                ),
            },
        }
    }
}

/// Where a way up stands after some steps.
pub struct Climbed {
    /// The transform from the space of the ancestor that was reached into
    /// the reference's.
    pub reference_from_ancestor: glam::Affine3A,
    /// Whether the way has crossed a pinhole camera.
    pub encountered_pinhole: bool,
}

/// The transform from the space of the ancestor `steps` steps above the
/// entity at `current` into the reference's, and whether the way there has
/// crossed a pinhole camera: the inverses of the ancestors' logged
/// transforms, joined to `reference_from_current` from the nearest ancestor
/// on. `None` where the way up ends before it has made that many steps.
pub open spec fn climbed(
    root: EntityTree,
    current: Seq<u64>,
    reference_from_current: glam::Affine3A,
    encountered_pinhole: bool,
    steps: nat,
) -> Option<Climbed>
    decreases steps,
{
    if steps == 0 {
        Some(Climbed { reference_from_ancestor: reference_from_current, encountered_pinhole })
    } else if current.len() <= 1 {
        None
    } else {
        match root.subtree_at(current.drop_last()) {
            None => None,
            Some(parent) => {
                let flag = crossed_pinhole(parent.transform, encountered_pinhole);
                match resolved(parent.transform, ImagePlaneDistance::Fixed, encountered_pinhole) {
                    Err(_) => None,
                    Ok(None) => climbed(
                        root,
                        current.drop_last(),
                        reference_from_current,
                        flag,
                        (steps - 1) as nat,
                    ),
                    Ok(Some(grandparent_from_parent)) => climbed(
                        root,
                        current.drop_last(),
                        composed(reference_from_current, inverted(grandparent_from_parent)),
                        flag,
                        (steps - 1) as nat,
                    ),
                }
            },
        }
    }
}

/// Whether the cache holds the top entity of the tree, and no entity from
/// outside the tree.
pub open spec fn covers(cache: CacheView, tree: EntityTree) -> bool {
    &&& cache.reference_from_entity.contains_key(tree.path.hash)
    &&& forall|hash: u64| #[trigger]
        cache.reference_from_entity.contains_key(hash) ==> tree.has_hash(hash)
}

/// The way up keeps every transform and every listed entity of the cache,
/// and notes the parent at which it ended, if it ended at one.
pub proof fn lemma_ascended_grows(
    root: EntityTree,
    current: Seq<u64>,
    reference_from_current: glam::Affine3A,
    encountered_pinhole: bool,
    cache: CacheView,
)
    ensures
        ({
            let after = ascended(root, current, reference_from_current, encountered_pinhole, cache);
            &&& after.reference_path == cache.reference_path
            &&& after.first_unreachable_parent == match way_up(
                root,
                current,
                encountered_pinhole,
            ).failure {
                Some(entry) => Some(entry),
                None => cache.first_unreachable_parent,
            }
            &&& forall|hash: u64| #[trigger]
                cache.reference_from_entity.contains_key(hash)
                    ==> after.reference_from_entity.contains_key(hash)
                    && after.reference_from_entity[hash] == cache.reference_from_entity[hash]
            &&& cache.unreachable_descendants.len() <= after.unreachable_descendants.len()
            &&& forall|i: int|
                0 <= i < cache.unreachable_descendants.len()
                    ==> #[trigger] after.unreachable_descendants[i]
                    == cache.unreachable_descendants[i]
        }),
    decreases current.len(),
{
    if current.len() > 1 {
        match root.subtree_at(current.drop_last()) {
            None => {},
            Some(parent) => {
                let flag = crossed_pinhole(parent.transform, encountered_pinhole);
                match resolved(parent.transform, ImagePlaneDistance::Fixed, encountered_pinhole) {
                    Err(_) => {},
                    Ok(local) => {
                        let frame = match local {
                            Some(grandparent_from_parent) => composed(
                                reference_from_current,
                                inverted(grandparent_from_parent),
                            ),
                            None => reference_from_current,
                        };
                        let next = gathered(parent, frame, flag, cache);
                        lemma_gathered_grows(parent, frame, flag, cache);
                        lemma_ascended_grows(root, current.drop_last(), frame, flag, next);
                    },
                }
            },
        }
    }
}

/// One step of the way up in a tree without repeated hashes: gathering the
/// parent's subtree into a cache that covers the subtree of the `i`-th
/// child adds the parent and entities below the parent's other children,
/// and nothing of the child's subtree.
pub proof fn lemma_gathered_around(
    parent: EntityTree,
    i: int,
    reference_from_parent: glam::Affine3A,
    encountered_pinhole: bool,
    cache: CacheView,
)
    requires
        parent.distinct_hashes(),
        0 <= i < parent.children.len(),
        covers(cache, parent.children[i]),
    ensures
        ({
            let after = gathered(parent, reference_from_parent, encountered_pinhole, cache);
            &&& covers(after, parent)
            &&& forall|hash: u64| #[trigger]
                after.reference_from_entity.contains_key(hash)
                    && !cache.reference_from_entity.contains_key(hash)
                    ==> !parent.children[i].has_hash(hash)
        }),
{
    let n = parent.children.len() as int;
    let entered = CacheView {
        reference_from_entity: cache.reference_from_entity.insert(
            parent.path.hash,
            reference_from_parent,
        ),
        ..cache
    };
    lemma_children_grow(parent, 0, n, i, reference_from_parent, encountered_pinhole, entered);
    assert(entered.reference_from_entity.contains_key(parent.path.hash));
}

/// In a tree without repeated hashes, the way up from an entity whose
/// subtree the cache covers adds nothing of that subtree, and leaves a cache
/// that covers the subtree of the entity at which the way ends.
pub proof fn lemma_ascended_around(
    root: EntityTree,
    current: Seq<u64>,
    reference_from_current: glam::Affine3A,
    encountered_pinhole: bool,
    cache: CacheView,
)
    requires
        root.distinct_hashes(),
        root.subtree_at(current) is Some,
        covers(cache, root.subtree_at(current)->0),
    ensures
        ({
            let after = ascended(root, current, reference_from_current, encountered_pinhole, cache);
            let end = way_up(root, current, encountered_pinhole).reached;
            &&& root.subtree_at(end) is Some
            &&& covers(after, root.subtree_at(end)->0)
            &&& forall|hash: u64| #[trigger]
                after.reference_from_entity.contains_key(hash)
                    && !cache.reference_from_entity.contains_key(hash) ==> !root.subtree_at(
                    current,
                )->0.has_hash(hash)
        }),
    decreases current.len(),
{
    if current.len() > 1 {
        root.lemma_subtree_parent(current);
        let parent = root.subtree_at(current.drop_last())->0;
        let i = parent.first_child(current.last());
        root.lemma_subtree_distinct(current.drop_last());
        let flag = crossed_pinhole(parent.transform, encountered_pinhole);
        match resolved(parent.transform, ImagePlaneDistance::Fixed, encountered_pinhole) {
            Err(_) => {},
            Ok(local) => {
                let frame = match local {
                    Some(grandparent_from_parent) => composed(
                        reference_from_current,
                        inverted(grandparent_from_parent),
                    ),
                    None => reference_from_current,
                };
                let next = gathered(parent, frame, flag, cache);
                lemma_gathered_around(parent, i, frame, flag, cache);
                lemma_ascended_around(root, current.drop_last(), frame, flag, next);
            },
        }
    }
}

/// In a tree without repeated hashes, after the way up from an entity whose
/// subtree the cache covers, the cache tells the way down every branch of
/// every ancestor that the way up came to, but for the branches that start
/// with the child from which it came.
pub proof fn lemma_ascended_ancestor(
    root: EntityTree,
    current: Seq<u64>,
    reference_from_current: glam::Affine3A,
    encountered_pinhole: bool,
    cache: CacheView,
    steps: nat,
    branch: Seq<int>,
)
    requires
        root.distinct_hashes(),
        root.subtree_at(current) is Some,
        covers(cache, root.subtree_at(current)->0),
        0 < steps < current.len(),
        climbed(root, current, reference_from_current, encountered_pinhole, steps) is Some,
        root.subtree_at(current.take(current.len() - steps)) is Some,
        root.subtree_at(current.take(current.len() - steps))->0.has_branch(branch),
        branch.len() > 0 ==> branch[0] != root.subtree_at(
            current.take(current.len() - steps),
        )->0.first_child(current[current.len() - steps]),
    ensures
        holds_branch(
            ascended(root, current, reference_from_current, encountered_pinhole, cache),
            root.subtree_at(current.take(current.len() - steps))->0,
            climbed(
                root,
                current,
                reference_from_current,
                encountered_pinhole,
                steps,
            )->0.reference_from_ancestor,
            climbed(
                root,
                current,
                reference_from_current,
                encountered_pinhole,
                steps,
            )->0.encountered_pinhole,
            branch,
        ),
    decreases steps,
{
    root.lemma_subtree_parent(current);
    let parent = root.subtree_at(current.drop_last())->0;
    let i = parent.first_child(current.last());
    root.lemma_subtree_distinct(current.drop_last());
    let flag = crossed_pinhole(parent.transform, encountered_pinhole);
    let local = resolved(parent.transform, ImagePlaneDistance::Fixed, encountered_pinhole)->Ok_0;
    let frame = match local {
        Some(grandparent_from_parent) => composed(
            reference_from_current,
            inverted(grandparent_from_parent),
        ),
        None => reference_from_current,
    };
    let next = gathered(parent, frame, flag, cache);
    let after = ascended(root, current.drop_last(), frame, flag, next);
    lemma_gathered_around(parent, i, frame, flag, cache);
    if steps == 1 {
        lemma_gathered_branch_beside(parent, i, frame, flag, cache, branch);
        lemma_ascended_grows(root, current.drop_last(), frame, flag, next);
        lemma_ascended_around(root, current.drop_last(), frame, flag, next);
        parent.lemma_branch_hash(branch);
        lemma_carried(next, after, parent, frame, flag, branch);
    } else {
        assert(current.drop_last().take(current.len() - 1 - (steps - 1)) =~= current.take(
            current.len() - steps,
        ));
        lemma_ascended_ancestor(
            root,
            current.drop_last(),
            frame,
            flag,
            next,
            (steps - 1) as nat,
            branch,
        );
    }
}

} // verus!
