//! What holds of every cache that `determine_transforms` builds, stated over
//! the cache that the traversal determines.

use vstd::prelude::*;
use crate::ascent::{
    climbed, lemma_ascended_ancestor, lemma_ascended_around, lemma_ascended_grows, way_up,
};
use crate::descent::{
    crossed_on, descended, holds_branch, lemma_branch_step, lemma_carried, lemma_ended_branch,
    lemma_gathered_branch,
};
use crate::entity_tree::{EntityTree, LoggedTransform};
use crate::growth::{lemma_children_grow, lemma_gathered_grows};
use crate::resolve::{crossed_pinhole, resolved, ImagePlaneDistance};
use crate::separation::{
    lemma_ascended_relists, lemma_ascended_separate, lemma_gathered_separate, relists, separate,
};
use crate::traversal::{determined, empty_cache, gathered, CacheView};
use crate::unreachable::UnreachableTransform;

verus! {

/// Whether the entity at the top of the tree is a pinhole camera.
pub open spec fn is_camera(tree: EntityTree) -> bool {
    tree.transform matches Some(LoggedTransform::Pinhole(_))
}

/// The reference is always held, with the transform it was given: the
/// identity, where `determine_transforms` builds the cache. This needs the
/// tree to hold the reference.
pub proof fn law_reference_at_origin(
    root: EntityTree,
    reference_path: Seq<u64>,
    origin: glam::Affine3A,
)
    requires
        root.subtree_at(reference_path) is Some,
    ensures
        determined(root, reference_path, origin).reference_from_entity.contains_key(
            reference_path.last(),
        ),
        determined(root, reference_path, origin).reference_from_entity[reference_path.last()]
            == origin,
{
    let reference = root.subtree_at(reference_path)->0;
    root.lemma_subtree_hash(reference_path);
    let empty = empty_cache(reference_path);
    let entered = CacheView {
        reference_from_entity: empty.reference_from_entity.insert(reference.path.hash, origin),
        ..empty
    };
    let n = reference.children.len() as int;
    lemma_children_grow(reference, 0, n, -1, origin, false, entered);
    let below = gathered(reference, origin, false, empty);
    assert(entered.reference_from_entity.contains_key(reference.path.hash));
    lemma_ascended_grows(root, reference_path, origin, false, below);
}

/// If the tree does not hold the reference, the cache is empty: no entity
/// is held, none is listed, and the way up never starts.
pub proof fn law_absent_reference(
    root: EntityTree,
    reference_path: Seq<u64>,
    origin: glam::Affine3A,
)
    requires
        root.subtree_at(reference_path) is None,
    ensures
        determined(root, reference_path, origin) == empty_cache(reference_path),
        forall|hash: u64|
            !determined(root, reference_path, origin).reference_from_entity.contains_key(hash),
        determined(root, reference_path, origin).unreachable_descendants.len() == 0,
        determined(root, reference_path, origin).first_unreachable_parent is None,
{
}

/// In a tree without repeated hashes, the cache tells the way down every
/// branch below the reference. An entity to which the way leads is held with
/// the logged transforms along its branch, composed from the reference down.
/// An entity below which, or at which, the way ends is not held, and the
/// entity at which the way ended is listed with the reason.
pub proof fn law_descendants(
    root: EntityTree,
    reference_path: Seq<u64>,
    origin: glam::Affine3A,
    branch: Seq<int>,
)
    requires
        root.distinct_hashes(),
        root.subtree_at(reference_path) is Some,
        root.subtree_at(reference_path)->0.has_branch(branch),
    ensures
        holds_branch(
            determined(root, reference_path, origin),
            root.subtree_at(reference_path)->0,
            origin,
            false,
            branch,
        ),
{
    let reference = root.subtree_at(reference_path)->0;
    let empty = empty_cache(reference_path);
    let below = gathered(reference, origin, false, empty);
    let cache = determined(root, reference_path, origin);
    root.lemma_subtree_distinct(reference_path);
    lemma_gathered_branch(reference, origin, false, empty, branch);
    lemma_gathered_branch(reference, origin, false, empty, Seq::empty());
    lemma_gathered_grows(reference, origin, false, empty);
    lemma_ascended_around(root, reference_path, origin, false, below);
    lemma_ascended_grows(root, reference_path, origin, false, below);
    reference.lemma_branch_hash(branch);
    lemma_carried(below, cache, reference, origin, false, branch);
}

/// In a tree without repeated hashes, the cache tells the way down every
/// branch of every ancestor of the reference that the way up came to, but
/// for the branches that lead back towards the reference. The ancestor
/// itself is held with the inverses of the logged transforms of the
/// ancestors up to it, joined from the nearest ancestor on.
pub proof fn law_ancestors(
    root: EntityTree,
    reference_path: Seq<u64>,
    origin: glam::Affine3A,
    steps: nat,
    branch: Seq<int>,
)
    requires
        root.distinct_hashes(),
        root.subtree_at(reference_path) is Some,
        0 < steps < reference_path.len(),
        climbed(root, reference_path, origin, false, steps) is Some,
        root.subtree_at(reference_path.take(reference_path.len() - steps))->0.has_branch(branch),
        branch.len() > 0 ==> branch[0] != root.subtree_at(
            reference_path.take(reference_path.len() - steps),
        )->0.first_child(reference_path[reference_path.len() - steps]),
    ensures
        root.subtree_at(reference_path.take(reference_path.len() - steps)) is Some,
        holds_branch(
            determined(root, reference_path, origin),
            root.subtree_at(reference_path.take(reference_path.len() - steps))->0,
            climbed(root, reference_path, origin, false, steps)->0.reference_from_ancestor,
            climbed(root, reference_path, origin, false, steps)->0.encountered_pinhole,
            branch,
        ),
{
    let reference = root.subtree_at(reference_path)->0;
    let empty = empty_cache(reference_path);
    let below = gathered(reference, origin, false, empty);
    root.lemma_subtree_prefix(reference_path, reference_path.len() - steps);
    root.lemma_subtree_distinct(reference_path);
    lemma_gathered_branch(reference, origin, false, empty, Seq::empty());
    lemma_gathered_grows(reference, origin, false, empty);
    lemma_ascended_ancestor(root, reference_path, origin, false, below, steps, branch);
}

/// In a tree without repeated hashes, no entity is both held and listed as
/// unreachable, unless the way up lists an entity that it started from.
pub proof fn law_held_or_listed(
    root: EntityTree,
    reference_path: Seq<u64>,
    origin: glam::Affine3A,
)
    requires
        root.distinct_hashes(),
        !relists(root, reference_path, false),
    ensures
        separate(determined(root, reference_path, origin)),
{
    if root.subtree_at(reference_path) is Some {
        let reference = root.subtree_at(reference_path)->0;
        let empty = empty_cache(reference_path);
        let below = gathered(reference, origin, false, empty);
        root.lemma_subtree_distinct(reference_path);
        lemma_gathered_separate(reference, origin, false, empty);
        lemma_gathered_branch(reference, origin, false, empty, Seq::empty());
        lemma_gathered_grows(reference, origin, false, empty);
        lemma_ascended_separate(root, reference_path, origin, false, below);
    }
}

/// In a tree without repeated hashes that holds the reference, some entity
/// is both held and listed as unreachable, if the way up lists an entity
/// that it started from.
pub proof fn law_relisted_is_held_and_listed(
    root: EntityTree,
    reference_path: Seq<u64>,
    origin: glam::Affine3A,
)
    requires
        root.distinct_hashes(),
        root.subtree_at(reference_path) is Some,
        relists(root, reference_path, false),
    ensures
        !separate(determined(root, reference_path, origin)),
{
    let reference = root.subtree_at(reference_path)->0;
    let empty = empty_cache(reference_path);
    let below = gathered(reference, origin, false, empty);
    root.lemma_subtree_distinct(reference_path);
    lemma_gathered_branch(reference, origin, false, empty, Seq::empty());
    lemma_gathered_grows(reference, origin, false, empty);
    lemma_ascended_relists(root, reference_path, origin, false, below);
}

/// The parent at which the way up ended is noted as the first unreachable
/// one, with the reason, and no other parent is. The reference path is the
/// one that was asked for.
pub proof fn law_first_unreachable_parent(
    root: EntityTree,
    reference_path: Seq<u64>,
    origin: glam::Affine3A,
)
    requires
        root.subtree_at(reference_path) is Some,
    ensures
        determined(root, reference_path, origin).first_unreachable_parent == way_up(
            root,
            reference_path,
            false,
        ).failure,
        determined(root, reference_path, origin).reference_path == reference_path,
{
    let reference = root.subtree_at(reference_path)->0;
    let empty = empty_cache(reference_path);
    lemma_gathered_grows(reference, origin, false, empty);
    lemma_ascended_grows(
        root,
        reference_path,
        origin,
        false,
        gathered(reference, origin, false, empty),
    );
}

/// In a tree without repeated hashes, every entity that the cache holds
/// lies in the subtree of the entity at which the way up ended: no ancestor
/// beyond it is held, and nothing of such an ancestor's other branches.
pub proof fn law_nothing_beyond_way_up(
    root: EntityTree,
    reference_path: Seq<u64>,
    origin: glam::Affine3A,
    hash: u64,
)
    requires
        root.distinct_hashes(),
        root.subtree_at(reference_path) is Some,
        determined(root, reference_path, origin).reference_from_entity.contains_key(hash),
    ensures
        root.subtree_at(way_up(root, reference_path, false).reached) is Some,
        root.subtree_at(way_up(root, reference_path, false).reached)->0.has_hash(hash),
{
    let reference = root.subtree_at(reference_path)->0;
    let empty = empty_cache(reference_path);
    let below = gathered(reference, origin, false, empty);
    root.lemma_subtree_distinct(reference_path);
    lemma_gathered_branch(reference, origin, false, empty, Seq::empty());
    lemma_gathered_grows(reference, origin, false, empty);
    lemma_ascended_around(root, reference_path, origin, false, below);
}

/// A way up ends below a parent with an unknown transform, and names that
/// parent with the reason `UnknownTransform`.
pub proof fn law_unknown_parent_ends_way_up(
    root: EntityTree,
    current: Seq<u64>,
    encountered_pinhole: bool,
)
    requires
        current.len() > 1,
        root.subtree_at(current.drop_last()) is Some,
        root.subtree_at(current.drop_last())->0.transform == Some(LoggedTransform::Unknown),
    ensures
        way_up(root, current, encountered_pinhole).reached == current,
        way_up(root, current, encountered_pinhole).failure == Some(
            (
                root.subtree_at(current.drop_last())->0.path@,
                UnreachableTransform::UnknownTransform,
            ),
        ),
{
}

/// In a tree without repeated hashes: if an entity below the reference is
/// not resolved, or lies below one that is not, then neither it nor any
/// entity below it is held.
pub proof fn law_nothing_below_unresolved(
    root: EntityTree,
    reference_path: Seq<u64>,
    origin: glam::Affine3A,
    branch: Seq<int>,
    longer: Seq<int>,
)
    requires
        root.distinct_hashes(),
        root.subtree_at(reference_path) is Some,
        root.subtree_at(reference_path)->0.has_branch(longer),
        branch.len() <= longer.len(),
        longer.take(branch.len() as int) == branch,
        descended(root.subtree_at(reference_path)->0, origin, false, branch) is Err,
    ensures
        !determined(root, reference_path, origin).reference_from_entity.contains_key(
            root.subtree_at(reference_path)->0.node_at(longer).path.hash,
        ),
{
    let reference = root.subtree_at(reference_path)->0;
    lemma_ended_branch(reference, origin, false, branch, longer);
    law_descendants(root, reference_path, origin, longer);
}

/// The way down a branch has crossed a pinhole camera at the branch's end
/// exactly if it had at the top, or some entity on the branch below the top
/// is a camera.
pub proof fn law_crossed_on(tree: EntityTree, encountered_pinhole: bool, branch: Seq<int>)
    requires
        tree.has_branch(branch),
    ensures
        crossed_on(tree, encountered_pinhole, branch) <==> encountered_pinhole || exists|k: int|
            1 <= k <= branch.len() && is_camera(#[trigger] tree.node_at(branch.take(k))),
    decreases branch.len(),
{
    if branch.len() > 0 {
        let child = tree.children[branch[0]];
        let rest = branch.skip(1);
        let flag = crossed_pinhole(child.transform, encountered_pinhole);
        law_crossed_on(child, flag, rest);
        assert(tree.node_at(branch.take(1)) == child.node_at(branch.take(1).skip(1)));
        assert forall|k: int| 1 <= k <= rest.len() implies #[trigger] child.node_at(rest.take(k))
            == tree.node_at(branch.take(k + 1)) by {
            assert(branch.take(k + 1).skip(1) =~= rest.take(k));
        }
        if crossed_on(tree, encountered_pinhole, branch) && !encountered_pinhole && !is_camera(
            child,
        ) {
            let k = choose|k: int|
                1 <= k <= rest.len() && is_camera(#[trigger] child.node_at(rest.take(k)));
            assert(is_camera(tree.node_at(branch.take(k + 1))));
        }
        if exists|k: int|
            1 <= k <= branch.len() && is_camera(#[trigger] tree.node_at(branch.take(k))) {
            let k = choose|k: int|
                1 <= k <= branch.len() && is_camera(#[trigger] tree.node_at(branch.take(k)));
            if k > 1 {
                assert(is_camera(child.node_at(rest.take(k - 1))));
            }
        }
    }
}

/// A pinhole camera on a branch that has crossed a camera before ends the
/// way down with the reason `NestedPinholeCameras`, whatever lies on other
/// branches.
pub proof fn law_second_pinhole_ends_branch(
    tree: EntityTree,
    reference_from_entity: glam::Affine3A,
    encountered_pinhole: bool,
    branch: Seq<int>,
    i: int,
)
    requires
        tree.has_branch(branch),
        0 <= i < tree.node_at(branch).children.len(),
        descended(tree, reference_from_entity, encountered_pinhole, branch) is Ok,
        crossed_on(tree, encountered_pinhole, branch),
        is_camera(tree.node_at(branch).children[i]),
    ensures
        descended(tree, reference_from_entity, encountered_pinhole, branch.push(i)) == Err::<
            glam::Affine3A,
            _,
        >((tree.node_at(branch).children[i].path@, UnreachableTransform::NestedPinholeCameras)),
{
    lemma_branch_step(tree, reference_from_entity, encountered_pinhole, branch, i);
}

/// An entity with an unknown transform ends the way down with the reason
/// `UnknownTransform`.
pub proof fn law_unknown_ends_branch(
    tree: EntityTree,
    reference_from_entity: glam::Affine3A,
    encountered_pinhole: bool,
    branch: Seq<int>,
    i: int,
)
    requires
        tree.has_branch(branch),
        0 <= i < tree.node_at(branch).children.len(),
        descended(tree, reference_from_entity, encountered_pinhole, branch) is Ok,
        tree.node_at(branch).children[i].transform == Some(LoggedTransform::Unknown),
    ensures
        descended(tree, reference_from_entity, encountered_pinhole, branch.push(i)) == Err::<
            glam::Affine3A,
            _,
        >((tree.node_at(branch).children[i].path@, UnreachableTransform::UnknownTransform)),
{
    lemma_branch_step(tree, reference_from_entity, encountered_pinhole, branch, i);
}

/// The way down goes on to every child that is resolved on its own branch:
/// a child without a logged transform, one with a rigid transform, and a
/// pinhole camera on a branch that has crossed none, whatever its siblings
/// are.
pub proof fn law_resolved_child_is_reached(
    tree: EntityTree,
    reference_from_entity: glam::Affine3A,
    encountered_pinhole: bool,
    branch: Seq<int>,
    i: int,
)
    requires
        tree.has_branch(branch),
        0 <= i < tree.node_at(branch).children.len(),
        descended(tree, reference_from_entity, encountered_pinhole, branch) is Ok,
        resolved(
            tree.node_at(branch).children[i].transform,
            ImagePlaneDistance::OfEntity,
            crossed_on(tree, encountered_pinhole, branch),
        ) is Ok,
    ensures
        descended(tree, reference_from_entity, encountered_pinhole, branch.push(i)) is Ok,
{
    lemma_branch_step(tree, reference_from_entity, encountered_pinhole, branch, i);
}

} // verus!
