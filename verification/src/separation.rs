//! When no entity is both held by the cache and listed as unreachable.
//!
//! A subtree gathered for the first time never puts an entity on both
//! sides. The way up can: it comes back to the entity it started from, as a
//! child of that entity's parent, and lists it if its logged transform is
//! not resolved from there.

use vstd::prelude::*;
use crate::affine::{composed, inverted};
use crate::ascent::{covers, lemma_ascended_grows, lemma_gathered_around};
use crate::descent::{fresh, lemma_distinct_child};
use crate::entity_tree::EntityTree;
use crate::growth::lemma_children_grow;
use crate::resolve::{crossed_pinhole, resolved, ImagePlaneDistance};
use crate::traversal::{ascended, gathered, gathered_children, visited, CacheView};

verus! {

/// Whether no entity that the cache lists as unreachable is held by it.
pub open spec fn separate(cache: CacheView) -> bool {
    forall|i: int|
        0 <= i < cache.unreachable_descendants.len() ==> !cache.reference_from_entity.contains_key(
            (#[trigger] cache.unreachable_descendants[i]).0.last(),
        )
}

/// Whether the cache lists no entity of the tree as unreachable.
pub open spec fn unlisted(tree: EntityTree, cache: CacheView) -> bool {
    forall|i: int|
        0 <= i < cache.unreachable_descendants.len() ==> !tree.has_hash(
            (#[trigger] cache.unreachable_descendants[i]).0.last(),
        )
}

/// Whether every entity that the cache lists as unreachable is an entity of
/// the tree.
pub open spec fn lists_inside(cache: CacheView, tree: EntityTree) -> bool {
    forall|i: int|
        0 <= i < cache.unreachable_descendants.len() ==> tree.has_hash(
            (#[trigger] cache.unreachable_descendants[i]).0.last(),
        )
}

/// Whether the way up from the entity at `current` lists an entity that the
/// cache holds: at some step the parent is resolved, and the entity from
/// which the step came is not, seen as the parent's child.
pub open spec fn relists(root: EntityTree, current: Seq<u64>, encountered_pinhole: bool) -> bool
    decreases current.len(),
{
    if current.len() <= 1 {
        false
    } else {
        match (root.subtree_at(current.drop_last()), root.subtree_at(current)) {
            (Some(parent), Some(child)) => {
                let flag = crossed_pinhole(parent.transform, encountered_pinhole);
                resolved(parent.transform, ImagePlaneDistance::Fixed, encountered_pinhole) is Ok
                    && (resolved(child.transform, ImagePlaneDistance::OfEntity, flag) is Err
                    || relists(root, current.drop_last(), flag))
            },
            _ => false,
        }
    }
}

/// Visiting the first `n` children of a tree without repeated hashes keeps
/// the cache separate, if the cache knows nothing of the children's
/// subtrees, but for one child `held` that it holds and that is resolved.
pub proof fn lemma_children_separate(
    tree: EntityTree,
    n: int,
    held: int,
    reference_from_entity: glam::Affine3A,
    encountered_pinhole: bool,
    cache: CacheView,
)
    requires
        tree.distinct_hashes(),
        0 <= n <= tree.children.len(),
        separate(cache),
        forall|j: int|
            0 <= j < n && j != held ==> fresh(#[trigger] tree.children[j], cache) && unlisted(
                tree.children[j],
                cache,
            ),
        0 <= held < n ==> cache.reference_from_entity.contains_key(tree.children[held].path.hash)
            && resolved(
            tree.children[held].transform,
            ImagePlaneDistance::OfEntity,
            encountered_pinhole,
        ) is Ok,
    ensures
        separate(gathered_children(tree, n, reference_from_entity, encountered_pinhole, cache)),
    decreases tree, n,
{
    if n > 0 {
        lemma_children_separate(
            tree,
            n - 1,
            held,
            reference_from_entity,
            encountered_pinhole,
            cache,
        );
        let before = gathered_children(
            tree,
            n - 1,
            reference_from_entity,
            encountered_pinhole,
            cache,
        );
        let child = tree.children[n - 1];
        assert(gathered_children(tree, n, reference_from_entity, encountered_pinhole, cache)
            == visited(child, reference_from_entity, encountered_pinhole, before));
        lemma_children_grow(
            tree,
            0,
            n - 1,
            held,
            reference_from_entity,
            encountered_pinhole,
            cache,
        );
        let flag = crossed_pinhole(child.transform, encountered_pinhole);
        if held != n - 1 {
            match resolved(child.transform, ImagePlaneDistance::OfEntity, encountered_pinhole) {
                Err(_) => {
                    assert(child.has_hash(child.path.hash));
                },
                Ok(None) => {
                    lemma_gathered_separate(child, reference_from_entity, flag, before);
                },
                Ok(Some(parent_from_child)) => {
                    lemma_gathered_separate(
                        child,
                        composed(reference_from_entity, parent_from_child),
                        flag,
                        before,
                    );
                },
            }
        }
    }
}

/// Gathering a subtree without repeated hashes, of which the cache knows
/// nothing, keeps the cache separate.
pub proof fn lemma_gathered_separate(
    tree: EntityTree,
    reference_from_entity: glam::Affine3A,
    encountered_pinhole: bool,
    cache: CacheView,
)
    requires
        tree.distinct_hashes(),
        fresh(tree, cache),
        unlisted(tree, cache),
        separate(cache),
    ensures
        separate(gathered(tree, reference_from_entity, encountered_pinhole, cache)),
    decreases tree, tree.children.len() + 1,
{
    let n = tree.children.len() as int;
    let entered = CacheView {
        reference_from_entity: cache.reference_from_entity.insert(
            tree.path.hash,
            reference_from_entity,
        ),
        ..cache
    };
    assert forall|j: int| 0 <= j < n implies fresh(#[trigger] tree.children[j], entered)
        && unlisted(tree.children[j], entered) by {
        lemma_distinct_child(tree, j);
    }
    lemma_children_separate(tree, n, -1, reference_from_entity, encountered_pinhole, entered);
}

/// The way up in a tree without repeated hashes keeps the cache separate,
/// if the cache knows of the subtree from which the way starts only, and the
/// way lists no entity that the cache holds.
pub proof fn lemma_ascended_separate(
    root: EntityTree,
    current: Seq<u64>,
    reference_from_current: glam::Affine3A,
    encountered_pinhole: bool,
    cache: CacheView,
)
    requires
        root.distinct_hashes(),
        root.subtree_at(current) is Some,
        covers(cache, root.subtree_at(current)->0),
        lists_inside(cache, root.subtree_at(current)->0),
        separate(cache),
        !relists(root, current, encountered_pinhole),
    ensures
        separate(ascended(root, current, reference_from_current, encountered_pinhole, cache)),
    decreases current.len(),
{
    if current.len() > 1 {
        root.lemma_subtree_parent(current);
        let parent = root.subtree_at(current.drop_last())->0;
        let i = parent.first_child(current.last());
        let n = parent.children.len() as int;
        root.lemma_subtree_distinct(current.drop_last());
        let flag = crossed_pinhole(parent.transform, encountered_pinhole);
        match resolved(parent.transform, ImagePlaneDistance::Fixed, encountered_pinhole) {
            Err(_) => {},
            Ok(local) => {
                let frame = match local {
                    Some(grandparent_from_parent) => composed(
                        reference_from_current,
                        inverted(grandparent_from_parent),
                    ),
                    None => reference_from_current,
                };
                let entered = CacheView {
                    reference_from_entity: cache.reference_from_entity.insert(
                        parent.path.hash,
                        frame,
                    ),
                    ..cache
                };
                let next = gathered(parent, frame, flag, cache);
                lemma_gathered_around(parent, i, frame, flag, cache);
                lemma_children_separate(parent, n, i, frame, flag, entered);
                lemma_children_grow(parent, 0, n, i, frame, flag, entered);
                lemma_ascended_separate(root, current.drop_last(), frame, flag, next);
            },
        }
    }
}

/// The way up in a tree without repeated hashes leaves an entity both held
/// and listed, if it lists an entity that the cache holds.
pub proof fn lemma_ascended_relists(
    root: EntityTree,
    current: Seq<u64>,
    reference_from_current: glam::Affine3A,
    encountered_pinhole: bool,
    cache: CacheView,
)
    requires
        root.distinct_hashes(),
        root.subtree_at(current) is Some,
        covers(cache, root.subtree_at(current)->0),
        relists(root, current, encountered_pinhole),
    ensures
        !separate(ascended(root, current, reference_from_current, encountered_pinhole, cache)),
    decreases current.len(),
{
    root.lemma_subtree_parent(current);
    let parent = root.subtree_at(current.drop_last())->0;
    let i = parent.first_child(current.last());
    let child = parent.children[i];
    let n = parent.children.len() as int;
    root.lemma_subtree_distinct(current.drop_last());
    let flag = crossed_pinhole(parent.transform, encountered_pinhole);
    let local = resolved(parent.transform, ImagePlaneDistance::Fixed, encountered_pinhole)->Ok_0;
    let frame = match local {
        Some(grandparent_from_parent) => composed(
            reference_from_current,
            inverted(grandparent_from_parent),
        ),
        None => reference_from_current,
    };
    let entered = CacheView {
        reference_from_entity: cache.reference_from_entity.insert(parent.path.hash, frame),
        ..cache
    };
    let next = gathered(parent, frame, flag, cache);
    let after = ascended(root, current.drop_last(), frame, flag, next);
    lemma_gathered_around(parent, i, frame, flag, cache);
    if resolved(child.transform, ImagePlaneDistance::OfEntity, flag) is Err {
        // The child is held when its parent's children are visited, and is
        // listed at its turn. Both stay so to the end.
        lemma_children_grow(parent, 0, i, -1, frame, flag, entered);
        lemma_children_grow(parent, i + 1, n, -1, frame, flag, entered);
        let before = gathered_children(parent, i, frame, flag, entered);
        let at = before.unreachable_descendants.len() as int;
        assert(gathered_children(parent, i + 1, frame, flag, entered) == visited(
            child,
            frame,
            flag,
            before,
        ));
        assert(entered.reference_from_entity.contains_key(child.path.hash));
        lemma_ascended_grows(root, current.drop_last(), frame, flag, next);
        assert(after.reference_from_entity.contains_key(
            after.unreachable_descendants[at].0.last(),
        ));
    } else {
        lemma_ascended_relists(root, current.drop_last(), frame, flag, next);
    }
}

} // verus!
