//! The place of an entity in the scene tree.
//!
//! Every entity is known by a 64-bit hash of its path, and two paths are the
//! same path when their hashes are equal. A path keeps, beside its own hash,
//! the hashes of its ancestors, so that the way up to the root can be read
//! off it.

use vstd::prelude::*;
use vstd::std_specs::cmp::PartialEqSpecImpl;

verus! {

/// The path of an entity: the hashes of its ancestors, the root first, and
/// its own hash.
#[derive(Debug)]
pub struct EntityPath {
    /// The hash by which the entity is found in maps and compared.
    pub hash: u64,
    /// The hashes of the ancestors, from the root down to the parent. Empty
    /// for the root.
    pub ancestors: Vec<u64>,
}

impl View for EntityPath {
    type V = Seq<u64>;

    /// The hashes on the way from the root to the entity, the entity's own
    /// hash last. Never empty.
    open spec fn view(&self) -> Seq<u64> {
        self.ancestors@.push(self.hash)
    }
}

impl EntityPath {
    /// The path of a root entity.
    pub fn root(hash: u64) -> (path: EntityPath)
        ensures
            path@ == seq![hash],
    {
        EntityPath { hash, ancestors: Vec::new() }
    }

    /// The path of the child with the given hash below this entity.
    pub fn child(&self, hash: u64) -> (path: EntityPath)
        ensures
            path@ == self@.push(hash),
    {
        let mut ancestors = self.ancestors.clone();
        ancestors.push(self.hash);
        EntityPath { hash, ancestors }
    }

    /// The hash of the entity.
    pub fn hash64(&self) -> (hash: u64)
        ensures
            hash == self@.last(),
    {
        self.hash
    }

    /// Whether this is the path of a root, which has no parent.
    pub fn is_root(&self) -> (root: bool)
        ensures
            root == (self@.len() == 1),
    {
        self.ancestors.len() == 0
    }

    /// The path of the parent, or `None` for a root.
    pub fn parent(&self) -> (parent: Option<EntityPath>)
        ensures
            self@.len() == 1 ==> parent is None,
            self@.len() > 1 ==> parent is Some && parent->0@ == self@.drop_last(),
    {
        let n = self.ancestors.len();
        if n == 0 {
            return None;
        }
        let mut ancestors: Vec<u64> = Vec::new();
        let mut i: usize = 0;
        while i < n - 1
            invariant
                n == self.ancestors.len(),
                n > 0,
                i <= n - 1,
                ancestors@ == self.ancestors@.take(i as int),
            decreases n - i,
        {
            ancestors.push(self.ancestors[i]);
            i += 1;
        }
        let parent = EntityPath { hash: self.ancestors[n - 1], ancestors };
        Some(parent)
    }
}

impl Clone for EntityPath {
    fn clone(&self) -> (path: EntityPath)
        ensures
            path@ == self@,
    {
        EntityPath { hash: self.hash, ancestors: self.ancestors.clone() }
    }
}

impl PartialEq for EntityPath {
    /// Two paths are equal when their hashes are.
    fn eq(&self, other: &EntityPath) -> (equal: bool) {
        self.hash == other.hash
    }
}

impl Eq for EntityPath {}

impl PartialEqSpecImpl for EntityPath {
    open spec fn obeys_eq_spec() -> bool {
        true
    }

    open spec fn eq_spec(&self, other: &EntityPath) -> bool {
        self.hash == other.hash
    }
}

} // verus!
