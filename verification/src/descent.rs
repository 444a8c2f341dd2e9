//! What the cache holds for the entities of a gathered subtree, told along
//! the branch that leads to each entity.

use vstd::prelude::*;
use crate::affine::composed;
use crate::entity_tree::EntityTree;
use crate::growth::{lemma_children_grow, lemma_visited_grows};
use crate::resolve::{crossed_pinhole, resolved, ImagePlaneDistance};
use crate::traversal::{gathered, gathered_children, visited, CacheView};
use crate::unreachable::UnreachableTransform;

verus! {

/// The way down a branch, from the top entity of `tree` with its transform
/// `reference_from_entity` into the reference's space.
///
/// If every entity on the branch is resolved, the result is the transform
/// of the entity at the end: the logged transforms along the branch,
/// composed from the top down. Otherwise it is the first entity that is not
/// resolved, with the reason.
pub open spec fn descended(
    tree: EntityTree,
    reference_from_entity: glam::Affine3A,
    encountered_pinhole: bool,
    branch: Seq<int>,
) -> Result<glam::Affine3A, (Seq<u64>, UnreachableTransform)>
    decreases branch.len(),
{
    if branch.len() == 0 {
        Ok(reference_from_entity)
    } else {
        let child = tree.children[branch[0]];
        let flag = crossed_pinhole(child.transform, encountered_pinhole);
        match resolved(child.transform, ImagePlaneDistance::OfEntity, encountered_pinhole) {
            Err(reason) => Err((child.path@, reason)),
            Ok(None) => descended(child, reference_from_entity, flag, branch.skip(1)),
            Ok(Some(parent_from_child)) => descended(
                child,
                composed(reference_from_entity, parent_from_child),
                flag,
                branch.skip(1),
            ),
        }
    }
}

/// Whether the way down a branch has crossed a pinhole camera when it
/// arrives at the branch's end: it had at the top, or an entity on the
/// branch below the top is a camera. The entities of other branches have no
/// part in it.
pub open spec fn crossed_on(tree: EntityTree, encountered_pinhole: bool, branch: Seq<int>) -> bool
    decreases branch.len(),
{
    if branch.len() == 0 {
        encountered_pinhole
    } else {
        let child = tree.children[branch[0]];
        crossed_on(child, crossed_pinhole(child.transform, encountered_pinhole), branch.skip(1))
    }
}

/// Whether the cache holds no entity of the tree.
pub open spec fn fresh(tree: EntityTree, cache: CacheView) -> bool {
    forall|hash: u64| #[trigger]
        tree.has_hash(hash) ==> !cache.reference_from_entity.contains_key(hash)
}

/// Whether the cache holds the entity at the end of the branch with the
/// transform that the way down the branch gives, or, where that way ends
/// early, does not hold the entity and lists the one at which it ended.
pub open spec fn holds_branch(
    cache: CacheView,
    tree: EntityTree,
    reference_from_entity: glam::Affine3A,
    encountered_pinhole: bool,
    branch: Seq<int>,
) -> bool {
    let hash = tree.node_at(branch).path.hash;
    match descended(tree, reference_from_entity, encountered_pinhole, branch) {
        Ok(reference_from_node) => cache.reference_from_entity.contains_key(hash)
            && cache.reference_from_entity[hash] == reference_from_node,
        Err(entry) => !cache.reference_from_entity.contains_key(hash) && exists|i: int|
            0 <= i < cache.unreachable_descendants.len()
                && #[trigger] cache.unreachable_descendants[i] == entry,
    }
}

/// A child of a tree without repeated hashes shares no hash with the top
/// entity nor with another child, and repeats none itself.
pub proof fn lemma_distinct_child(tree: EntityTree, i: int)
    requires
        tree.distinct_hashes(),
        0 <= i < tree.children.len(),
    ensures
        tree.children[i].distinct_hashes(),
        !tree.children[i].has_hash(tree.path.hash),
        forall|hash: u64| #[trigger]
            tree.children[i].has_hash(hash) ==> tree.has_hash(hash) && !tree.child_hashes(
                0,
                tree.children.len() as int,
                i,
            ).contains(hash),
{
}

/// After a subtree without repeated hashes was gathered into a cache that
/// held none of its entities, the cache tells the way down every branch of
/// the subtree.
pub proof fn lemma_gathered_branch(
    tree: EntityTree,
    reference_from_entity: glam::Affine3A,
    encountered_pinhole: bool,
    cache: CacheView,
    branch: Seq<int>,
)
    requires
        tree.distinct_hashes(),
        fresh(tree, cache),
        tree.has_branch(branch),
    ensures
        holds_branch(
            gathered(tree, reference_from_entity, encountered_pinhole, cache),
            tree,
            reference_from_entity,
            encountered_pinhole,
            branch,
        ),
    decreases branch.len(), 1int,
{
    assert(tree.has_hash(tree.path.hash));
    assert forall|j: int| 0 <= j < tree.children.len() implies fresh(
        #[trigger] tree.children[j],
        cache,
    ) by {
        lemma_distinct_child(tree, j);
    }
    lemma_gathered_branch_beside(
        tree,
        -1,
        reference_from_entity,
        encountered_pinhole,
        cache,
        branch,
    );
}

/// After a subtree without repeated hashes was gathered into a cache that
/// held nothing of it but entities below the child `held`, that child
/// among them, the cache tells the way down every branch that does not
/// start with that child.
pub proof fn lemma_gathered_branch_beside(
    tree: EntityTree,
    held: int,
    reference_from_entity: glam::Affine3A,
    encountered_pinhole: bool,
    cache: CacheView,
    branch: Seq<int>,
)
    requires
        tree.distinct_hashes(),
        !cache.reference_from_entity.contains_key(tree.path.hash),
        forall|j: int|
            0 <= j < tree.children.len() && j != held ==> fresh(#[trigger] tree.children[j], cache),
        0 <= held < tree.children.len() ==> cache.reference_from_entity.contains_key(
            tree.children[held].path.hash,
        ),
        tree.has_branch(branch),
        branch.len() > 0 ==> branch[0] != held,
    ensures
        holds_branch(
            gathered(tree, reference_from_entity, encountered_pinhole, cache),
            tree,
            reference_from_entity,
            encountered_pinhole,
            branch,
        ),
    decreases branch.len(), 0int,
{
    let n = tree.children.len() as int;
    let entered = CacheView {
        reference_from_entity: cache.reference_from_entity.insert(
            tree.path.hash,
            reference_from_entity,
        ),
        ..cache
    };
    let after = gathered(tree, reference_from_entity, encountered_pinhole, cache);
    assert(gathered_children(tree, 0, reference_from_entity, encountered_pinhole, entered)
        == entered);
    assert(entered.reference_from_entity.contains_key(tree.path.hash));
    if branch.len() == 0 {
        lemma_children_grow(
            tree,
            0,
            n,
            held,
            reference_from_entity,
            encountered_pinhole,
            entered,
        );
    } else {
        let i = branch[0];
        let rest = branch.skip(1);
        let child = tree.children[i];
        let before = gathered_children(
            tree,
            i,
            reference_from_entity,
            encountered_pinhole,
            entered,
        );
        let visit = visited(child, reference_from_entity, encountered_pinhole, before);
        child.lemma_branch_hash(rest);
        lemma_distinct_child(tree, i);
        lemma_children_grow(
            tree,
            0,
            i,
            held,
            reference_from_entity,
            encountered_pinhole,
            entered,
        );
        assert(0 <= held < n ==> visit.reference_from_entity.contains_key(
            tree.children[held].path.hash,
        )) by {
            lemma_visited_grows(child, reference_from_entity, encountered_pinhole, before);
        }
        lemma_children_grow(
            tree,
            i + 1,
            n,
            held,
            reference_from_entity,
            encountered_pinhole,
            entered,
        );
        let flag = crossed_pinhole(child.transform, encountered_pinhole);
        match resolved(child.transform, ImagePlaneDistance::OfEntity, encountered_pinhole) {
            Err(reason) => {
                let at = before.unreachable_descendants.len() as int;
                assert(after.unreachable_descendants[at] == (child.path@, reason));
            },
            Ok(None) => {
                lemma_gathered_branch(child, reference_from_entity, flag, before, rest);
                lemma_carried(visit, after, child, reference_from_entity, flag, rest);
            },
            Ok(Some(parent_from_child)) => {
                let reference_from_child = composed(reference_from_entity, parent_from_child);
                lemma_gathered_branch(child, reference_from_child, flag, before, rest);
                lemma_carried(visit, after, child, reference_from_child, flag, rest);
            },
        }
    }
}

/// What a cache tells of a branch, a later cache tells too, if the later one
/// has not come to hold the entity at the branch's end.
pub proof fn lemma_carried(
    earlier: CacheView,
    later: CacheView,
    tree: EntityTree,
    reference_from_entity: glam::Affine3A,
    encountered_pinhole: bool,
    branch: Seq<int>,
)
    requires
        holds_branch(earlier, tree, reference_from_entity, encountered_pinhole, branch),
        forall|hash: u64| #[trigger]
            earlier.reference_from_entity.contains_key(hash)
                ==> later.reference_from_entity.contains_key(hash)
                && later.reference_from_entity[hash] == earlier.reference_from_entity[hash],
        earlier.unreachable_descendants.len() <= later.unreachable_descendants.len(),
        forall|i: int|
            0 <= i < earlier.unreachable_descendants.len()
                ==> #[trigger] later.unreachable_descendants[i] == earlier.unreachable_descendants[i],
        later.reference_from_entity.contains_key(tree.node_at(branch).path.hash)
            ==> earlier.reference_from_entity.contains_key(tree.node_at(branch).path.hash),
    ensures
        holds_branch(later, tree, reference_from_entity, encountered_pinhole, branch),
{
    match descended(tree, reference_from_entity, encountered_pinhole, branch) {
        Ok(_) => {},
        Err(entry) => {
            let i = choose|i: int|
                0 <= i < earlier.unreachable_descendants.len()
                    && #[trigger] earlier.unreachable_descendants[i] == entry;
            assert(later.unreachable_descendants[i] == entry);
        },
    }
}

/// The way down a branch that is one entity longer: it ends where the
/// shorter way ended, or goes on by the step to the child at the end.
pub proof fn lemma_branch_step(
    tree: EntityTree,
    reference_from_entity: glam::Affine3A,
    encountered_pinhole: bool,
    branch: Seq<int>,
    i: int,
)
    requires
        tree.has_branch(branch),
        0 <= i < tree.node_at(branch).children.len(),
    ensures
        tree.has_branch(branch.push(i)),
        tree.node_at(branch.push(i)) == tree.node_at(branch).children[i],
        descended(tree, reference_from_entity, encountered_pinhole, branch.push(i)) == (match descended(
            tree,
            reference_from_entity,
            encountered_pinhole,
            branch,
        ) {
            Err(entry) => Err(entry),
            Ok(reference_from_parent) => {
                let child = tree.node_at(branch).children[i];
                match resolved(
                    child.transform,
                    ImagePlaneDistance::OfEntity,
                    crossed_on(tree, encountered_pinhole, branch),
                ) {
                    Err(reason) => Err((child.path@, reason)),
                    Ok(None) => Ok(reference_from_parent),
                    Ok(Some(parent_from_child)) => Ok(
                        composed(reference_from_parent, parent_from_child),
                    ),
                }
            },
        }),
    decreases branch.len(),
{
    let longer = branch.push(i);
    if branch.len() == 0 {
        let child = tree.children[i];
        assert(child.has_branch(longer.skip(1)));
        assert(child.node_at(longer.skip(1)) == child);
        let flag = crossed_pinhole(child.transform, encountered_pinhole);
        match resolved(child.transform, ImagePlaneDistance::OfEntity, encountered_pinhole) {
            Err(_) => {},
            Ok(None) => {
                assert(descended(child, reference_from_entity, flag, longer.skip(1)) == Ok::<
                    _,
                    (Seq<u64>, UnreachableTransform),
                >(reference_from_entity));
            },
            Ok(Some(parent_from_child)) => {
                let frame = composed(reference_from_entity, parent_from_child);
                assert(descended(child, frame, flag, longer.skip(1)) == Ok::<
                    _,
                    (Seq<u64>, UnreachableTransform),
                >(frame));
            },
        }
    } else {
        let child = tree.children[branch[0]];
        let flag = crossed_pinhole(child.transform, encountered_pinhole);
        assert(longer.skip(1) =~= branch.skip(1).push(i));
        match resolved(child.transform, ImagePlaneDistance::OfEntity, encountered_pinhole) {
            Err(_) => {
                lemma_branch_step(child, reference_from_entity, flag, branch.skip(1), i);
            },
            Ok(None) => {
                lemma_branch_step(child, reference_from_entity, flag, branch.skip(1), i);
            },
            Ok(Some(parent_from_child)) => {
                lemma_branch_step(
                    child,
                    composed(reference_from_entity, parent_from_child),
                    flag,
                    branch.skip(1),
                    i,
                );
            },
        }
    }
}

/// Where the way down a branch ends early, the way down every longer
/// branch ends at the same entity.
pub proof fn lemma_ended_branch(
    tree: EntityTree,
    reference_from_entity: glam::Affine3A,
    encountered_pinhole: bool,
    branch: Seq<int>,
    longer: Seq<int>,
)
    requires
        branch.len() <= longer.len(),
        longer.take(branch.len() as int) == branch,
        descended(tree, reference_from_entity, encountered_pinhole, branch) is Err,
    ensures
        descended(tree, reference_from_entity, encountered_pinhole, longer) == descended(
            tree,
            reference_from_entity,
            encountered_pinhole,
            branch,
        ),
    decreases branch.len(),
{
    if branch.len() > 0 {
        let child = tree.children[branch[0]];
        let flag = crossed_pinhole(child.transform, encountered_pinhole);
        assert(longer.skip(1).take(branch.len() - 1) =~= branch.skip(1));
        match resolved(child.transform, ImagePlaneDistance::OfEntity, encountered_pinhole) {
            Err(_) => {},
            Ok(None) => {
                lemma_ended_branch(
                    child,
                    reference_from_entity,
                    flag,
                    branch.skip(1),
                    longer.skip(1),
                );
            },
            Ok(Some(parent_from_child)) => {
                lemma_ended_branch(
                    child,
                    composed(reference_from_entity, parent_from_child),
                    flag,
                    branch.skip(1),
                    longer.skip(1),
                );
            },
        }
    }
}

} // verus!
