//! The scene tree as the transform cache reads it: for each entity its path,
//! the transform that was last logged for it, and its children.

use vstd::prelude::*;
use crate::entity_path::EntityPath;

verus! {

/// The two placements of a pinhole camera's image plane, each as the
/// transform from the camera's image space into the space of its parent.
#[derive(Clone, Copy, Debug)]
pub struct Pinhole {
    /// With the image plane at the distance that is configured for the
    /// entity. Used on the way down from the reference.
    pub at_entity_distance: glam::Affine3A,
    /// With the image plane at the one fixed distance that serves where no
    /// configuration applies. Used on the way up from the reference.
    pub at_fixed_distance: glam::Affine3A,
}

/// The transform that was last logged for an entity. It relates the entity
/// to its parent.
#[derive(Clone, Copy, Debug)]
pub enum LoggedTransform {
    /// A rotation and a translation, as the transform from the entity's
    /// space into its parent's.
    Rigid3(glam::Affine3A),
    /// A pinhole camera: the entity's space is the camera's image.
    Pinhole(Pinhole),
    /// The entity is explicitly not connected to its parent.
    Unknown,
}

/// An entity of the scene with everything below it.
#[derive(Debug)]
pub struct EntityTree {
    /// The path of the entity at the top of this tree.
    pub path: EntityPath,
    /// The transform last logged for the entity, if there is one.
    pub transform: Option<LoggedTransform>,
    /// The trees of the entity's children.
    pub children: Vec<EntityTree>,
}

impl EntityTree {
    /// The index of the first child at or after `from` whose hash is `hash`,
    /// or the number of children if there is none.
    pub open spec fn first_child_from(self, hash: u64, from: int) -> int
        decreases self.children.len() - from,
    {
        if from < 0 || from >= self.children.len() {
            self.children.len() as int
        } else if self.children[from].path.hash == hash {
            from
        } else {
            self.first_child_from(hash, from + 1)
        }
    }

    /// The index of the first child whose hash is `hash`, or the number of
    /// children if there is none.
    pub open spec fn first_child(self, hash: u64) -> int {
        self.first_child_from(hash, 0)
    }

    /// The tree found by walking down from this tree along `hashes`: the
    /// first hash is that of this tree's own entity, each later one that of
    /// a child of the entity before. `None` where the walk leaves the tree.
    pub open spec fn subtree_at(self, hashes: Seq<u64>) -> Option<EntityTree>
        decreases hashes.len(),
    {
        if hashes.len() == 0 || hashes[0] != self.path.hash {
            None
        } else if hashes.len() == 1 {
            Some(self)
        } else {
            let i = self.first_child(hashes[1]);
            if i < self.children.len() {
                self.children[i].subtree_at(hashes.skip(1))
            } else {
                None
            }
        }
    }

    /// Whether some entity of this tree has the hash `hash`.
    pub open spec fn has_hash(self, hash: u64) -> bool
        decreases self,
    {
        self.path.hash == hash || exists|i: int|
            0 <= i < self.children.len() && (#[trigger] self.children[i]).has_hash(hash)
    }

    /// Whether no two entities of this tree share a hash.
    pub open spec fn distinct_hashes(self) -> bool
        decreases self,
    {
        &&& forall|i: int|
            0 <= i < self.children.len() ==> (#[trigger] self.children[i]).distinct_hashes()
        &&& forall|i: int|
            0 <= i < self.children.len() ==> !#[trigger] self.children[i].has_hash(
                self.path.hash,
            )
        &&& forall|i: int, j: int, hash: u64|
            0 <= i < self.children.len() && 0 <= j < self.children.len() && i != j
                && #[trigger] self.children[i].has_hash(hash)
                ==> !#[trigger] self.children[j].has_hash(hash)
    }

    /// The hashes of all entities of this tree.
    pub open spec fn hashes(self) -> Set<u64> {
        Set::new(|hash: u64| self.has_hash(hash))
    }

    /// The hashes of all entities in the subtrees of the children `from..to`
    /// of this tree's top entity, the child `except` left out.
    pub open spec fn child_hashes(self, from: int, to: int, except: int) -> Set<u64> {
        Set::new(
            |hash: u64|
                exists|j: int|
                    from <= j < to && 0 <= j < self.children.len() && j != except
                        && #[trigger] self.children[j].has_hash(hash),
        )
    }

    /// Whether `branch` leads from this tree's top entity down to an entity
    /// of the tree: each number is the index of a child of the entity
    /// before.
    pub open spec fn has_branch(self, branch: Seq<int>) -> bool
        decreases branch.len(),
    {
        branch.len() == 0 || (0 <= branch[0] < self.children.len()
            && self.children[branch[0]].has_branch(branch.skip(1)))
    }

    /// The tree of the entity to which `branch` leads.
    pub open spec fn node_at(self, branch: Seq<int>) -> EntityTree
        decreases branch.len(),
    {
        if branch.len() == 0 {
            self
        } else {
            self.children[branch[0]].node_at(branch.skip(1))
        }
    }

    /// The entity at the end of a branch is an entity of the tree.
    pub proof fn lemma_branch_hash(self, branch: Seq<int>)
        requires
            self.has_branch(branch),
        ensures
            self.has_hash(self.node_at(branch).path.hash),
        decreases branch.len(),
    {
        if branch.len() > 0 {
            let child = self.children[branch[0]];
            child.lemma_branch_hash(branch.skip(1));
        }
    }

    /// `first_child_from` gives the first child at or after `from` with the
    /// hash, and the number of children exactly if no such child exists.
    pub proof fn lemma_first_child_from(self, hash: u64, from: int)
        requires
            0 <= from <= self.children.len(),
        ensures
            from <= self.first_child_from(hash, from) <= self.children.len(),
            self.first_child_from(hash, from) < self.children.len()
                ==> self.children[self.first_child_from(hash, from)].path.hash == hash,
            forall|j: int|
                from <= j < self.first_child_from(hash, from)
                    ==> (#[trigger] self.children[j]).path.hash != hash,
        decreases self.children.len() - from,
    {
        if from < self.children.len() && self.children[from].path.hash != hash {
            self.lemma_first_child_from(hash, from + 1);
        }
    }

    /// The tree found at a path has the path's last hash.
    pub proof fn lemma_subtree_hash(self, hashes: Seq<u64>)
        requires
            self.subtree_at(hashes) is Some,
        ensures
            self.subtree_at(hashes)->0.path.hash == hashes.last(),
        decreases hashes.len(),
    {
        if hashes.len() > 1 {
            let i = self.first_child(hashes[1]);
            self.children[i].lemma_subtree_hash(hashes.skip(1));
        }
    }

    /// Where the tree holds a path that is not the root's, it holds the
    /// parent's path too, and the tree found at the path is the first child
    /// of the parent with the path's last hash.
    pub proof fn lemma_subtree_parent(self, hashes: Seq<u64>)
        requires
            self.subtree_at(hashes) is Some,
            hashes.len() > 1,
        ensures
            self.subtree_at(hashes.drop_last()) is Some,
            ({
                let parent = self.subtree_at(hashes.drop_last())->0;
                let i = parent.first_child(hashes.last());
                0 <= i < parent.children.len() && parent.children[i] == self.subtree_at(hashes)->0
            }),
        decreases hashes.len(),
    {
        let i = self.first_child(hashes[1]);
        self.lemma_first_child_from(hashes[1], 0);
        let child = self.children[i];
        assert(self.subtree_at(hashes) == child.subtree_at(hashes.skip(1)));
        if hashes.len() > 2 {
            child.lemma_subtree_parent(hashes.skip(1));
            assert(hashes.drop_last().skip(1) =~= hashes.skip(1).drop_last());
        }
    }

    /// Where the tree holds a path, it holds every ancestor's path.
    pub proof fn lemma_subtree_prefix(self, hashes: Seq<u64>, len: int)
        requires
            self.subtree_at(hashes) is Some,
            1 <= len <= hashes.len(),
        ensures
            self.subtree_at(hashes.take(len)) is Some,
        decreases hashes.len(),
    {
        if len == hashes.len() {
            assert(hashes.take(len) =~= hashes);
        } else {
            self.lemma_subtree_parent(hashes);
            assert(hashes.drop_last().take(len) =~= hashes.take(len));
            self.lemma_subtree_prefix(hashes.drop_last(), len);
        }
    }

    /// A tree found inside a tree without repeated hashes repeats none
    /// either, and all its entities are entities of the outer tree.
    pub proof fn lemma_subtree_distinct(self, hashes: Seq<u64>)
        requires
            self.distinct_hashes(),
            self.subtree_at(hashes) is Some,
        ensures
            self.subtree_at(hashes)->0.distinct_hashes(),
            forall|hash: u64| #[trigger]
                self.subtree_at(hashes)->0.has_hash(hash) ==> self.has_hash(hash),
        decreases hashes.len(),
    {
        if hashes.len() > 1 {
            let i = self.first_child(hashes[1]);
            self.lemma_first_child_from(hashes[1], 0);
            let child = self.children[i];
            child.lemma_subtree_distinct(hashes.skip(1));
        }
    }

    /// A tree of one entity, without children.
    pub fn new(path: EntityPath, transform: Option<LoggedTransform>) -> (tree: EntityTree)
        ensures
            tree.path == path,
            tree.transform == transform,
            tree.children@.len() == 0,
    {
        EntityTree { path, transform, children: Vec::new() }
    }

    /// The index of the first child with the given hash.
    pub fn find_child(&self, hash: u64) -> (found: Option<usize>)
        ensures
            match found {
                Some(i) => i == self.first_child(hash) && i < self.children.len()
                    && self.children[i as int].path.hash == hash,
                None => self.first_child(hash) == self.children.len(),
            },
    {
        let mut i: usize = 0;
        while i < self.children.len()
            invariant
                i <= self.children.len(),
                self.first_child(hash) == self.first_child_from(hash, i as int),
            decreases self.children.len() - i,
        {
            if self.children[i].path.hash == hash {
                return Some(i);
            }
            i += 1;
        }
        None
    }

    /// The tree of the entity at `path`, looked up from this tree's root.
    /// `None` if the path does not lie in this tree.
    pub fn subtree(&self, path: &EntityPath) -> (found: Option<&EntityTree>)
        ensures
            match found {
                Some(tree) => self.subtree_at(path@) == Some(*tree),
                None => self.subtree_at(path@) is None,
            },
    {
        let n = path.ancestors.len();
        let first = if n == 0 { path.hash } else { path.ancestors[0] };
        if self.path.hash != first {
            return None;
        }
        let mut node = self;
        let mut depth: usize = 0;
        assert(path@.skip(0) =~= path@);
        while depth < n
            invariant
                n == path.ancestors.len(),
                depth <= n,
                node.path.hash == path@[depth as int],
                self.subtree_at(path@) == node.subtree_at(path@.skip(depth as int)),
            decreases n - depth,
        {
            let next = if depth + 1 < n { path.ancestors[depth + 1] } else { path.hash };
            assert(path@.skip(depth as int).skip(1) =~= path@.skip(depth as int + 1));
            match node.find_child(next) {
                None => {
                    return None;
                },
                Some(i) => {
                    node = &node.children[i];
                    depth += 1;
                },
            }
        }
        Some(node)
    }
}

} // verus!
