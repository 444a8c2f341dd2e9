use glam::{Affine3A, Quat, Vec3};
use transform_cache::entity_path::EntityPath;
use transform_cache::entity_tree::{EntityTree, LoggedTransform, Pinhole};
use transform_cache::transform_cache::TransformCache;
use transform_cache::unreachable::UnreachableTransform;

fn node(
    path: &EntityPath,
    transform: Option<LoggedTransform>,
    children: Vec<EntityTree>,
) -> EntityTree {
    EntityTree { path: path.clone(), transform, children }
}

fn rigid(angle: f32, x: f32, y: f32, z: f32) -> Affine3A {
    Affine3A::from_rotation_translation(Quat::from_rotation_y(angle), Vec3::new(x, y, z))
}

fn logged(transform: Affine3A) -> Option<LoggedTransform> {
    Some(LoggedTransform::Rigid3(transform))
}

fn camera(entity: f32, fixed: f32) -> Option<LoggedTransform> {
    Some(LoggedTransform::Pinhole(Pinhole {
        at_entity_distance: Affine3A::from_translation(Vec3::new(0.0, 0.0, entity))
            * Affine3A::from_scale(Vec3::new(entity, entity, entity)),
        at_fixed_distance: Affine3A::from_translation(Vec3::new(0.0, 0.0, fixed))
            * Affine3A::from_scale(Vec3::new(fixed, fixed, fixed)),
    }))
}

fn entity_plane(entity: f32) -> Affine3A {
    Affine3A::from_translation(Vec3::new(0.0, 0.0, entity))
        * Affine3A::from_scale(Vec3::new(entity, entity, entity))
}

fn listed(cache: &TransformCache) -> Vec<(Vec<u64>, u64, UnreachableTransform)> {
    cache
        .unreachable_descendants()
        .iter()
        .map(|(path, reason)| (path.ancestors.clone(), path.hash, *reason))
        .collect()
}

#[test]
fn reference_has_the_identity() {
    let root = EntityPath::root(1);
    let a = root.child(2);
    let tree = node(&root, logged(rigid(0.3, 1.0, 0.0, 0.0)), vec![node(
        &a,
        logged(rigid(0.1, 0.0, 2.0, 0.0)),
        vec![],
    )]);
    let at_root = TransformCache::determine_transforms(&tree, &root);
    assert_eq!(at_root.reference_from_entity(&root), Some(Affine3A::IDENTITY));
    let at_a = TransformCache::determine_transforms(&tree, &a);
    assert_eq!(at_a.reference_from_entity(&a), Some(Affine3A::IDENTITY));
    assert_eq!(at_a.reference_path().hash, 2);
    assert_eq!(at_a.reference_path().ancestors, vec![1]);
}

#[test]
fn chain_of_rigid_transforms_composes_downwards() {
    let t1 = rigid(0.4, 1.0, 2.0, 3.0);
    let t2 = rigid(-1.1, -4.0, 0.5, 2.0);
    let t3 = rigid(2.0, 0.25, -7.0, 1.5);
    let root = EntityPath::root(10);
    let a = root.child(11);
    let b = a.child(12);
    let leaf = b.child(13);
    let tree = node(&root, None, vec![node(&a, logged(t1), vec![node(
        &b,
        logged(t2),
        vec![node(&leaf, logged(t3), vec![])],
    )])]);
    let cache = TransformCache::determine_transforms(&tree, &root);
    assert_eq!(cache.reference_from_entity(&a), Some(Affine3A::IDENTITY * t1));
    assert_eq!(cache.reference_from_entity(&b), Some(Affine3A::IDENTITY * t1 * t2));
    let at_leaf = cache.reference_from_entity(&leaf).unwrap();
    assert_eq!(at_leaf, Affine3A::IDENTITY * t1 * t2 * t3);
    assert!(at_leaf.abs_diff_eq(t1 * (t2 * t3), 1e-4));
    assert!(!at_leaf.abs_diff_eq(t1, 1e-4));
    assert!(cache.unreachable_descendants().is_empty());
    assert!(cache.first_unreachable_parent().is_none());
}

#[test]
fn entity_without_logged_transform_shares_its_parents_space() {
    let t = rigid(0.7, 3.0, 0.0, -1.0);
    let root = EntityPath::root(1);
    let a = root.child(2);
    let b = a.child(3);
    let tree = node(&root, None, vec![node(&a, logged(t), vec![node(&b, None, vec![])])]);
    let cache = TransformCache::determine_transforms(&tree, &root);
    assert_eq!(cache.reference_from_entity(&b), cache.reference_from_entity(&a));
    assert_eq!(cache.reference_from_entity(&b), Some(Affine3A::IDENTITY * t));
}

#[test]
fn unknown_transform_hides_the_entity_and_all_below() {
    let root = EntityPath::root(1);
    let lost = root.child(2);
    let below = lost.child(3);
    let deeper = below.child(4);
    let kept = root.child(5);
    let tree = node(&root, None, vec![
        node(&lost, Some(LoggedTransform::Unknown), vec![node(
            &below,
            logged(rigid(0.1, 1.0, 1.0, 1.0)),
            vec![node(&deeper, None, vec![])],
        )]),
        node(&kept, logged(rigid(0.2, 0.0, 1.0, 0.0)), vec![]),
    ]);
    let cache = TransformCache::determine_transforms(&tree, &root);
    assert_eq!(cache.reference_from_entity(&lost), None);
    assert_eq!(cache.reference_from_entity(&below), None);
    assert_eq!(cache.reference_from_entity(&deeper), None);
    assert_eq!(
        cache.reference_from_entity(&kept),
        Some(Affine3A::IDENTITY * rigid(0.2, 0.0, 1.0, 0.0))
    );
    assert_eq!(listed(&cache), vec![(vec![1], 2, UnreachableTransform::UnknownTransform)]);
}

#[test]
fn second_camera_on_a_branch_is_nested() {
    let root = EntityPath::root(1);
    let outer = root.child(2);
    let inner = outer.child(3);
    let behind = inner.child(4);
    let beside = outer.child(5);
    let tree = node(&root, None, vec![node(&outer, camera(2.0, 500.0), vec![
        node(&inner, camera(3.0, 500.0), vec![node(&behind, None, vec![])]),
        node(&beside, logged(rigid(0.5, 1.0, 0.0, 0.0)), vec![]),
    ])]);
    let cache = TransformCache::determine_transforms(&tree, &root);
    assert_eq!(cache.reference_from_entity(&outer), Some(Affine3A::IDENTITY * entity_plane(2.0)));
    assert_eq!(cache.reference_from_entity(&inner), None);
    assert_eq!(cache.reference_from_entity(&behind), None);
    assert_eq!(
        cache.reference_from_entity(&beside),
        Some(Affine3A::IDENTITY * entity_plane(2.0) * rigid(0.5, 1.0, 0.0, 0.0))
    );
    assert_eq!(listed(&cache), vec![(vec![1, 2], 3, UnreachableTransform::NestedPinholeCameras)]);
}

#[test]
fn cameras_on_sibling_branches_do_not_see_each_other() {
    let root = EntityPath::root(1);
    let left = root.child(2);
    let left_image = left.child(3);
    let right = root.child(4);
    let right_image = right.child(5);
    let tree = node(&root, None, vec![
        node(&left, camera(2.0, 500.0), vec![node(&left_image, None, vec![])]),
        node(&right, camera(4.0, 500.0), vec![node(&right_image, None, vec![])]),
    ]);
    let cache = TransformCache::determine_transforms(&tree, &root);
    assert_eq!(cache.reference_from_entity(&left_image), Some(Affine3A::IDENTITY * entity_plane(2.0)));
    assert_eq!(
        cache.reference_from_entity(&right_image),
        Some(Affine3A::IDENTITY * entity_plane(4.0))
    );
    assert!(cache.unreachable_descendants().is_empty());
}

#[test]
fn failed_descendant_keeps_its_subtree_out() {
    let root = EntityPath::root(1);
    let a = root.child(2);
    let failed = a.child(3);
    let under = failed.child(4);
    let far_under = under.child(5);
    let tree = node(&root, None, vec![node(&a, logged(rigid(0.1, 0.0, 0.0, 1.0)), vec![node(
        &failed,
        Some(LoggedTransform::Unknown),
        vec![node(&under, None, vec![node(&far_under, logged(rigid(0.0, 1.0, 0.0, 0.0)), vec![])])],
    )])]);
    let cache = TransformCache::determine_transforms(&tree, &root);
    assert!(cache.reference_from_entity(&a).is_some());
    assert!(cache.reference_from_entity(&failed).is_none());
    assert!(cache.reference_from_entity(&under).is_none());
    assert!(cache.reference_from_entity(&far_under).is_none());
    assert_eq!(cache.unreachable_descendants().len(), 1);
}

#[test]
fn held_and_listed_entities_are_apart() {
    let root = EntityPath::root(1);
    let a = root.child(2);
    let b = root.child(3);
    let c = a.child(4);
    let d = a.child(5);
    let tree = node(&root, None, vec![
        node(&a, camera(1.0, 500.0), vec![
            node(&c, camera(1.0, 500.0), vec![]),
            node(&d, Some(LoggedTransform::Unknown), vec![]),
        ]),
        node(&b, Some(LoggedTransform::Unknown), vec![]),
    ]);
    let cache = TransformCache::determine_transforms(&tree, &root);
    assert_eq!(listed(&cache), vec![
        (vec![1, 2], 4, UnreachableTransform::NestedPinholeCameras),
        (vec![1, 2], 5, UnreachableTransform::UnknownTransform),
        (vec![1], 3, UnreachableTransform::UnknownTransform),
    ]);
    for (path, _) in cache.unreachable_descendants() {
        assert!(cache.reference_from_entity(path).is_none());
    }
    assert!(cache.reference_from_entity(&root).is_some());
    assert!(cache.reference_from_entity(&a).is_some());
}

#[test]
fn absent_reference_gives_an_empty_cache() {
    let root = EntityPath::root(1);
    let a = root.child(2);
    let tree = node(&root, None, vec![node(&a, logged(rigid(0.1, 1.0, 0.0, 0.0)), vec![])]);
    let absent = root.child(9);
    let cache = TransformCache::determine_transforms(&tree, &absent);
    assert_eq!(cache.reference_path().hash, 9);
    assert_eq!(cache.reference_path().ancestors, vec![1]);
    assert_eq!(cache.reference_from_entity(&absent), None);
    assert_eq!(cache.reference_from_entity(&root), None);
    assert_eq!(cache.reference_from_entity(&a), None);
    assert!(cache.unreachable_descendants().is_empty());
    assert!(cache.first_unreachable_parent().is_none());
}

#[test]
fn way_up_inverts_the_ancestors_transforms() {
    let tp = rigid(0.6, 1.0, 2.0, 3.0);
    let tr = rigid(0.2, 0.0, 5.0, 0.0);
    let tx = rigid(-0.3, 2.0, 0.0, 0.0);
    let ts = rigid(1.0, 0.0, 0.0, 4.0);
    let tu = rigid(0.9, 7.0, 7.0, 7.0);
    let root = EntityPath::root(1);
    let p = root.child(2);
    let r = p.child(3);
    let x = r.child(4);
    let s = p.child(5);
    let u = root.child(6);
    let tree = node(&root, None, vec![
        node(&p, logged(tp), vec![
            node(&r, logged(tr), vec![node(&x, logged(tx), vec![])]),
            node(&s, logged(ts), vec![]),
        ]),
        node(&u, logged(tu), vec![]),
    ]);
    let cache = TransformCache::determine_transforms(&tree, &r);
    let from_p = Affine3A::IDENTITY * tp.inverse();
    assert_eq!(cache.reference_from_entity(&r), Some(Affine3A::IDENTITY));
    assert_eq!(cache.reference_from_entity(&x), Some(Affine3A::IDENTITY * tx));
    assert_eq!(cache.reference_from_entity(&p), Some(from_p));
    assert_eq!(cache.reference_from_entity(&s), Some(from_p * ts));
    assert_eq!(cache.reference_from_entity(&root), Some(from_p));
    assert_eq!(cache.reference_from_entity(&u), Some(from_p * tu));
    assert_ne!(from_p, Affine3A::IDENTITY * tp);
    assert!(cache.unreachable_descendants().is_empty());
    assert!(cache.first_unreachable_parent().is_none());
}

#[test]
fn way_up_stops_at_an_unknown_ancestor() {
    let root = EntityPath::root(1);
    let lost = root.child(2);
    let r = lost.child(3);
    let below = r.child(4);
    let beside = lost.child(5);
    let far = root.child(6);
    let tree = node(&root, None, vec![
        node(&lost, Some(LoggedTransform::Unknown), vec![
            node(&r, None, vec![node(&below, logged(rigid(0.1, 1.0, 0.0, 0.0)), vec![])]),
            node(&beside, None, vec![]),
        ]),
        node(&far, None, vec![]),
    ]);
    let cache = TransformCache::determine_transforms(&tree, &r);
    let (path, reason) = cache.first_unreachable_parent().clone().unwrap();
    assert_eq!(path.hash, 2);
    assert_eq!(path.ancestors, vec![1]);
    assert_eq!(reason, UnreachableTransform::UnknownTransform);
    assert_eq!(cache.reference_from_entity(&r), Some(Affine3A::IDENTITY));
    assert!(cache.reference_from_entity(&below).is_some());
    assert_eq!(cache.reference_from_entity(&lost), None);
    assert_eq!(cache.reference_from_entity(&beside), None);
    assert_eq!(cache.reference_from_entity(&root), None);
    assert_eq!(cache.reference_from_entity(&far), None);
    assert!(cache.unreachable_descendants().is_empty());
}

#[test]
fn way_up_takes_the_fixed_distance_and_the_way_down_the_entitys() {
    let root = EntityPath::root(1);
    let cam = root.child(2);
    let image = cam.child(3);
    let tree = node(&root, None, vec![node(&cam, camera(2.0, 500.0), vec![node(
        &image,
        None,
        vec![],
    )])]);
    let fixed_plane = Affine3A::from_translation(Vec3::new(0.0, 0.0, 500.0))
        * Affine3A::from_scale(Vec3::new(500.0, 500.0, 500.0));

    let down = TransformCache::determine_transforms(&tree, &root);
    assert_eq!(down.reference_from_entity(&cam), Some(Affine3A::IDENTITY * entity_plane(2.0)));

    let up = TransformCache::determine_transforms(&tree, &image);
    assert_eq!(up.reference_from_entity(&cam), Some(Affine3A::IDENTITY * fixed_plane.inverse()));
    assert_eq!(up.reference_from_entity(&image), Some(Affine3A::IDENTITY));
}

#[test]
fn camera_above_the_reference_counts_for_its_other_branches() {
    let root = EntityPath::root(1);
    let cam = root.child(2);
    let r = cam.child(3);
    let other_cam = cam.child(4);
    let plain = cam.child(5);
    let tree = node(&root, None, vec![node(&cam, camera(2.0, 500.0), vec![
        node(&r, None, vec![]),
        node(&other_cam, camera(3.0, 500.0), vec![]),
        node(&plain, None, vec![]),
    ])]);
    let cache = TransformCache::determine_transforms(&tree, &r);
    assert!(cache.reference_from_entity(&cam).is_some());
    assert_eq!(cache.reference_from_entity(&other_cam), None);
    assert_eq!(cache.reference_from_entity(&plain), cache.reference_from_entity(&cam));
    assert_eq!(listed(&cache), vec![
        (vec![1, 2], 4, UnreachableTransform::NestedPinholeCameras),
        (vec![1], 2, UnreachableTransform::NestedPinholeCameras),
    ]);
    assert!(cache.reference_from_entity(&root).is_some());
    assert!(cache.first_unreachable_parent().is_none());
}

#[test]
fn second_camera_on_the_way_up_is_the_first_unreachable_parent() {
    let root = EntityPath::root(1);
    let outer = root.child(2);
    let inner = outer.child(3);
    let r = inner.child(4);
    let tree = node(&root, None, vec![node(&outer, camera(2.0, 500.0), vec![node(
        &inner,
        camera(3.0, 500.0),
        vec![node(&r, None, vec![])],
    )])]);
    let cache = TransformCache::determine_transforms(&tree, &r);
    assert!(cache.reference_from_entity(&inner).is_some());
    assert_eq!(cache.reference_from_entity(&outer), None);
    assert_eq!(cache.reference_from_entity(&root), None);
    let (path, reason) = cache.first_unreachable_parent().clone().unwrap();
    assert_eq!((path.ancestors, path.hash), (vec![1], 2));
    assert_eq!(reason, UnreachableTransform::NestedPinholeCameras);
}

#[test]
fn reference_seen_again_from_its_parent_is_listed_if_unresolved() {
    let root = EntityPath::root(1);
    let r = root.child(2);
    let tree = node(&root, None, vec![node(&r, Some(LoggedTransform::Unknown), vec![])]);
    let cache = TransformCache::determine_transforms(&tree, &r);
    assert_eq!(cache.reference_from_entity(&r), Some(Affine3A::IDENTITY));
    assert_eq!(cache.reference_from_entity(&root), Some(Affine3A::IDENTITY));
    assert_eq!(listed(&cache), vec![(vec![1], 2, UnreachableTransform::UnknownTransform)]);
    assert!(cache.first_unreachable_parent().is_none());
}

#[test]
fn first_write_wins_for_a_repeated_hash() {
    let t1 = rigid(0.1, 1.0, 0.0, 0.0);
    let t2 = rigid(0.2, 0.0, 1.0, 0.0);
    let root = EntityPath::root(1);
    let twin = root.child(2);
    let tree = node(&root, None, vec![
        node(&twin, logged(t1), vec![]),
        node(&twin, logged(t2), vec![node(&twin.child(3), None, vec![])]),
    ]);
    let cache = TransformCache::determine_transforms(&tree, &root);
    assert_eq!(cache.reference_from_entity(&twin), Some(Affine3A::IDENTITY * t1));
    assert_eq!(cache.reference_from_entity(&twin.child(3)), None);
}

#[test]
fn gathering_a_held_entity_changes_nothing() {
    let root = EntityPath::root(1);
    let a = root.child(2);
    let tree = node(&root, None, vec![node(&a, None, vec![])]);
    let first = rigid(0.1, 1.0, 0.0, 0.0);
    let second = rigid(0.2, 0.0, 1.0, 0.0);
    let mut cache = TransformCache::new(root.clone());
    cache.gather_descendants_transforms(&tree, first, false);
    assert_eq!(cache.reference_from_entity(&root), Some(first));
    assert_eq!(cache.reference_from_entity(&a), Some(first));
    cache.gather_descendants_transforms(&tree, second, false);
    assert_eq!(cache.reference_from_entity(&root), Some(first));
    assert_eq!(cache.reference_from_entity(&a), Some(first));
    assert!(cache.unreachable_descendants().is_empty());
}

#[test]
fn gathering_behind_a_camera_lists_every_camera_child() {
    let root = EntityPath::root(1);
    let a = root.child(2);
    let b = root.child(3);
    let tree = node(&root, None, vec![
        node(&a, camera(1.0, 500.0), vec![]),
        node(&b, camera(1.0, 500.0), vec![]),
    ]);
    let mut cache = TransformCache::new(root.clone());
    cache.gather_descendants_transforms(&tree, Affine3A::IDENTITY, true);
    assert_eq!(listed(&cache), vec![
        (vec![1], 2, UnreachableTransform::NestedPinholeCameras),
        (vec![1], 3, UnreachableTransform::NestedPinholeCameras),
    ]);
    assert_eq!(cache.reference_from_entity(&root), Some(Affine3A::IDENTITY));
}

#[test]
fn new_cache_is_empty() {
    let path = EntityPath::root(1).child(2);
    let cache = TransformCache::new(path.clone());
    assert_eq!(cache.reference_path().hash, 2);
    assert_eq!(cache.reference_from_entity(&path), None);
    assert!(cache.unreachable_descendants().is_empty());
    assert!(cache.first_unreachable_parent().is_none());
}
