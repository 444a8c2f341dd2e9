use transform_cache::entity_path::EntityPath;
use transform_cache::entity_tree::{EntityTree, LoggedTransform};

fn tree(path: &EntityPath, children: Vec<EntityTree>) -> EntityTree {
    EntityTree { path: path.clone(), transform: None, children }
}

fn sample() -> EntityTree {
    let root = EntityPath::root(1);
    let a = root.child(2);
    let b = root.child(3);
    let c = a.child(4);
    let d = a.child(5);
    tree(&root, vec![tree(&a, vec![tree(&c, vec![]), tree(&d, vec![])]), tree(&b, vec![])])
}

#[test]
fn new_tree_has_no_children() {
    let made = EntityTree::new(EntityPath::root(3), Some(LoggedTransform::Unknown));
    assert_eq!(made.path.hash, 3);
    assert!(made.children.is_empty());
    assert!(matches!(made.transform, Some(LoggedTransform::Unknown)));
}

#[test]
fn find_child_gives_the_index_of_the_child() {
    let root = sample();
    assert_eq!(root.find_child(2), Some(0));
    assert_eq!(root.find_child(3), Some(1));
    assert_eq!(root.find_child(4), None);
    assert_eq!(root.children[0].find_child(5), Some(1));
}

#[test]
fn find_child_takes_the_first_of_two_with_one_hash() {
    let root = EntityPath::root(1);
    let twice = tree(&root, vec![tree(&root.child(8), vec![]), tree(&root.child(8), vec![])]);
    assert_eq!(twice.find_child(8), Some(0));
}

#[test]
fn subtree_of_the_root_path_is_the_whole_tree() {
    let root = sample();
    let found = root.subtree(&EntityPath::root(1)).unwrap();
    assert_eq!(found.path.hash, 1);
    assert_eq!(found.children.len(), 2);
}

#[test]
fn subtree_walks_down_the_path() {
    let root = sample();
    let path = EntityPath::root(1).child(2).child(5);
    let found = root.subtree(&path).unwrap();
    assert_eq!(found.path.hash, 5);
    assert_eq!(found.path.ancestors, vec![1, 2]);
    assert!(found.children.is_empty());
    let inner = root.subtree(&EntityPath::root(1).child(2)).unwrap();
    assert_eq!(inner.children.len(), 2);
}

#[test]
fn subtree_is_none_off_the_tree() {
    let root = sample();
    assert!(root.subtree(&EntityPath::root(9)).is_none());
    assert!(root.subtree(&EntityPath::root(1).child(4)).is_none());
    assert!(root.subtree(&EntityPath::root(1).child(3).child(4)).is_none());
    assert!(root.subtree(&EntityPath::root(2)).is_none());
}
