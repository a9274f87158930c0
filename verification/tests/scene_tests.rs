use asset_pipeline::scene::{all_children, LightKind, Scene, SceneNode};

fn tree() -> Scene {
    // 0 -> (1 -> (3, 4), 2 -> (5))
    let mut scene = Scene::new();
    assert_eq!(scene.spawn(None, SceneNode::empty()), Some(0));
    assert_eq!(scene.spawn(Some(0), SceneNode::empty()), Some(1));
    assert_eq!(scene.spawn(Some(0), SceneNode::empty()), Some(2));
    assert_eq!(scene.spawn(Some(1), SceneNode::empty()), Some(3));
    assert_eq!(scene.spawn(Some(1), SceneNode::empty()), Some(4));
    assert_eq!(scene.spawn(Some(2), SceneNode::empty()), Some(5));
    scene
}

#[test]
fn spawn_numbers_entities_in_order() {
    let scene = tree();
    assert_eq!(scene.len(), 6);
    assert_eq!(scene.children_of(0), vec![1, 2]);
    assert_eq!(scene.children_of(1), vec![3, 4]);
    assert_eq!(scene.children_of(2), vec![5]);
    assert!(scene.children_of(3).is_empty());
    assert!(scene.children_of(99).is_empty());
}

#[test]
fn spawn_under_a_missing_parent_changes_nothing() {
    let mut scene = tree();
    assert_eq!(scene.spawn(Some(6), SceneNode::empty()), None);
    assert_eq!(scene.spawn(Some(usize::MAX), SceneNode::empty()), None);
    assert_eq!(scene.len(), 6);
    let mut empty = Scene::new();
    assert_eq!(empty.spawn(Some(0), SceneNode::empty()), None);
    assert_eq!(empty.len(), 0);
}

#[test]
fn traversal_is_depth_first_children_before_siblings() {
    let scene = tree();
    assert_eq!(all_children(&scene, 0), vec![3, 4, 1, 5, 2]);
    assert_eq!(all_children(&scene, 1), vec![3, 4]);
    assert_eq!(all_children(&scene, 2), vec![5]);
    assert!(all_children(&scene, 5).is_empty());
    assert!(all_children(&scene, 6).is_empty());
}

#[test]
fn traversal_of_a_chain_starts_at_the_bottom() {
    let mut scene = Scene::new();
    scene.spawn(None, SceneNode::empty());
    for parent in 0..4 {
        scene.spawn(Some(parent), SceneNode::empty());
    }
    assert_eq!(all_children(&scene, 0), vec![4, 3, 2, 1]);
}

#[test]
fn late_children_are_visited_in_the_order_they_were_added() {
    let mut scene = tree();
    // a second child of 2, then a child of 3
    assert_eq!(scene.spawn(Some(2), SceneNode::empty()), Some(6));
    assert_eq!(scene.spawn(Some(3), SceneNode::empty()), Some(7));
    assert_eq!(all_children(&scene, 0), vec![7, 3, 4, 1, 5, 6, 2]);
}

#[test]
fn nodes_can_be_read_and_replaced() {
    let mut scene = tree();
    assert_eq!(scene.node(3), Some(SceneNode::empty()));
    assert_eq!(scene.node(6), None);
    let light = SceneNode { light: Some(LightKind::Spot), material: Some(4), ..SceneNode::empty() };
    assert!(scene.set_node(3, light));
    assert_eq!(scene.node(3), Some(light));
    assert_eq!(scene.node(4), Some(SceneNode::empty()));
    assert!(!scene.set_node(6, light));
    assert_eq!(scene.children_of(1), vec![3, 4]);
}

#[test]
fn a_root_waits_only_once_it_has_children() {
    let mut scene = Scene::new();
    let marked = SceneNode { post_proc_scene: true, ..SceneNode::empty() };
    scene.spawn(None, marked);
    assert!(!scene.is_pending_root(0));
    scene.spawn(Some(0), SceneNode::empty());
    assert!(scene.is_pending_root(0));
    assert!(!scene.is_pending_root(1));
    assert!(!scene.is_pending_root(2));
}
