//! How a cache grows while subtrees are gathered into it: what it held
//! stays, and what is new comes from the gathered subtrees.

use vstd::prelude::*;
use crate::affine::composed;
use crate::entity_tree::EntityTree;
use crate::resolve::{crossed_pinhole, resolved, ImagePlaneDistance};
use crate::traversal::{gathered, gathered_children, visited, CacheView};

verus! {

/// Whether `later` holds every transform that `earlier` holds, unchanged,
/// lists the unreachable entities of `earlier` first, and has every further
/// transform under a hash in `allowed`.
pub open spec fn extends(earlier: CacheView, later: CacheView, allowed: Set<u64>) -> bool {
    &&& later.reference_path == earlier.reference_path
    &&& later.first_unreachable_parent == earlier.first_unreachable_parent
    &&& forall|hash: u64| #[trigger]
        earlier.reference_from_entity.contains_key(hash)
            ==> later.reference_from_entity.contains_key(hash)
            && later.reference_from_entity[hash] == earlier.reference_from_entity[hash]
    &&& forall|hash: u64| #[trigger]
        later.reference_from_entity.contains_key(hash)
            ==> earlier.reference_from_entity.contains_key(hash) || allowed.contains(hash)
    &&& earlier.unreachable_descendants.len() <= later.unreachable_descendants.len()
    &&& forall|i: int|
        0 <= i < earlier.unreachable_descendants.len()
            ==> #[trigger] later.unreachable_descendants[i] == earlier.unreachable_descendants[i]
}

/// Whether every unreachable entity that `later` lists beyond those of
/// `earlier` has its hash in `allowed`.
pub open spec fn lists_within(earlier: CacheView, later: CacheView, allowed: Set<u64>) -> bool {
    forall|i: int|
        earlier.unreachable_descendants.len() <= i < later.unreachable_descendants.len()
            ==> allowed.contains((#[trigger] later.unreachable_descendants[i]).0.last())
}

/// Visiting a child keeps what the cache held, and adds only entities of the
/// child's subtree.
pub proof fn lemma_visited_grows(
    child: EntityTree,
    reference_from_parent: glam::Affine3A,
    encountered_pinhole: bool,
    cache: CacheView,
)
    ensures
        extends(
            cache,
            visited(child, reference_from_parent, encountered_pinhole, cache),
            child.hashes(),
        ),
        lists_within(
            cache,
            visited(child, reference_from_parent, encountered_pinhole, cache),
            child.hashes(),
        ),
    decreases child, child.children.len() + 2,
{
    let flag = crossed_pinhole(child.transform, encountered_pinhole);
    match resolved(child.transform, ImagePlaneDistance::OfEntity, encountered_pinhole) {
        Err(_) => {},
        Ok(None) => {
            lemma_gathered_grows(child, reference_from_parent, flag, cache);
        },
        Ok(Some(parent_from_child)) => {
            lemma_gathered_grows(
                child,
                composed(reference_from_parent, parent_from_child),
                flag,
                cache,
            );
        },
    }
}

/// Gathering a subtree keeps what the cache held, and adds only entities of
/// the subtree.
pub proof fn lemma_gathered_grows(
    tree: EntityTree,
    reference_from_entity: glam::Affine3A,
    encountered_pinhole: bool,
    cache: CacheView,
)
    ensures
        extends(
            cache,
            gathered(tree, reference_from_entity, encountered_pinhole, cache),
            tree.hashes(),
        ),
        lists_within(
            cache,
            gathered(tree, reference_from_entity, encountered_pinhole, cache),
            tree.hashes(),
        ),
    decreases tree, tree.children.len() + 1,
{
    if !cache.reference_from_entity.contains_key(tree.path.hash) {
        let entered = CacheView {
            reference_from_entity: cache.reference_from_entity.insert(
                tree.path.hash,
                reference_from_entity,
            ),
            ..cache
        };
        let n = tree.children.len() as int;
        lemma_children_grow(tree, 0, n, -1, reference_from_entity, encountered_pinhole, entered);
        let after = gathered_children(tree, n, reference_from_entity, encountered_pinhole, entered);
        assert forall|hash: u64| #[trigger]
            cache.reference_from_entity.contains_key(
                hash,
            ) implies after.reference_from_entity.contains_key(hash)
            && after.reference_from_entity[hash] == cache.reference_from_entity[hash] by {
            assert(entered.reference_from_entity.contains_key(hash));
        }
    }
}

/// Visiting the children `from..to` keeps what the cache held after the
/// children before `from`, and adds only transforms of entities below these
/// children. A child `held` that the cache holds already adds no transform.
/// If that child is resolved, or is none of these children, the entities
/// listed as unreachable come from below the other children too.
pub proof fn lemma_children_grow(
    tree: EntityTree,
    from: int,
    to: int,
    held: int,
    reference_from_entity: glam::Affine3A,
    encountered_pinhole: bool,
    cache: CacheView,
)
    requires
        0 <= from <= to <= tree.children.len(),
        from <= held < to ==> gathered_children(
            tree,
            from,
            reference_from_entity,
            encountered_pinhole,
            cache,
        ).reference_from_entity.contains_key(tree.children[held].path.hash),
    ensures
        extends(
            gathered_children(tree, from, reference_from_entity, encountered_pinhole, cache),
            gathered_children(tree, to, reference_from_entity, encountered_pinhole, cache),
            tree.child_hashes(from, to, held),
        ),
        (from <= held < to ==> resolved(
            tree.children[held].transform,
            ImagePlaneDistance::OfEntity,
            encountered_pinhole,
        ) is Ok) ==> lists_within(
            gathered_children(tree, from, reference_from_entity, encountered_pinhole, cache),
            gathered_children(tree, to, reference_from_entity, encountered_pinhole, cache),
            tree.child_hashes(from, to, held),
        ),
    decreases tree, to,
{
    if from < to {
        lemma_children_grow(
            tree,
            from,
            to - 1,
            held,
            reference_from_entity,
            encountered_pinhole,
            cache,
        );
        let before = gathered_children(
            tree,
            to - 1,
            reference_from_entity,
            encountered_pinhole,
            cache,
        );
        lemma_visited_grows(
            tree.children[to - 1],
            reference_from_entity,
            encountered_pinhole,
            before,
        );
    }
}

} // verus!
