use aurion::scene_graph::{GameObject, GameObjectNode, SceneError, SceneGraph};
use glam::{Mat4, Quat, Vec3};

fn close(a: Mat4, b: Mat4) -> bool {
    a.abs_diff_eq(b, 1e-5)
}

/// One update pass as the engine runs it: each node's behaviors act, then its
/// world transform is derived. Here the only behavior rotates `spinner` to
/// `angle` radians about Y.
fn update_with_rotation(graph: &mut SceneGraph, root: GameObject, spinner: GameObject, angle: f32) {
    let order = GameObjectNode::update_order(graph, root);
    for index in order {
        let node = GameObject { index };
        if node == spinner {
            let (scale, _, translation) = node.get_local_transform(graph).to_scale_rotation_translation();
            let local = Mat4::from_scale_rotation_translation(scale, Quat::from_rotation_y(angle), translation);
            node.set_local_transform(graph, local);
        }
        graph.derive_world(node);
    }
}

#[test]
fn new_node_starts_bare() {
    let mut graph = SceneGraph::new();
    let a = GameObjectNode::new(&mut graph, "a");
    assert_eq!(a.index, 0);
    assert_eq!(graph.node_count(), 1);
    assert_eq!(a.get_name(&graph), "a");
    assert_eq!(a.get_local_transform(&graph), Mat4::IDENTITY);
    assert_eq!(a.get_world_transform(&graph), Mat4::IDENTITY);
    assert_eq!(a.get_mesh(&graph), None);
    assert_eq!(a.get_parent(&graph), None);
    assert!(a.get_behaviors(&graph).is_empty());
}

#[test]
fn names_need_not_be_unique() {
    let mut graph = SceneGraph::new();
    let a = GameObjectNode::new(&mut graph, "twin");
    let b = GameObjectNode::new(&mut graph, "twin");
    assert_ne!(a, b);
    assert_eq!(GameObjectNode::add_child(&mut graph, a, b), Ok(()));
    assert_eq!(GameObjectNode::remove_child(&mut graph, a, b), Ok(()));
    assert_eq!(b.get_parent(&graph), None);
}

#[test]
fn add_child_links_both_ways() {
    let mut graph = SceneGraph::new();
    let p = GameObjectNode::new(&mut graph, "p");
    let c = GameObjectNode::new(&mut graph, "c");
    assert_eq!(GameObjectNode::add_child(&mut graph, p, c), Ok(()));
    assert_eq!(c.get_parent(&graph), Some(p));
    assert_eq!(GameObjectNode::update_order(&graph, p), vec![p.index, c.index]);
}

#[test]
fn add_child_refuses_second_parent() {
    let mut graph = SceneGraph::new();
    let p = GameObjectNode::new(&mut graph, "p");
    let q = GameObjectNode::new(&mut graph, "q");
    let c = GameObjectNode::new(&mut graph, "c");
    assert_eq!(GameObjectNode::add_child(&mut graph, p, c), Ok(()));
    assert_eq!(GameObjectNode::add_child(&mut graph, q, c), Err(SceneError::AlreadyHasParent));
    assert_eq!(GameObjectNode::add_child(&mut graph, p, c), Err(SceneError::AlreadyHasParent));
    assert_eq!(c.get_parent(&graph), Some(p));
    assert_eq!(GameObjectNode::update_order(&graph, q), vec![q.index]);
}

#[test]
fn add_child_refuses_cycles() {
    let mut graph = SceneGraph::new();
    let a = GameObjectNode::new(&mut graph, "a");
    let b = GameObjectNode::new(&mut graph, "b");
    let c = GameObjectNode::new(&mut graph, "c");
    assert_eq!(GameObjectNode::add_child(&mut graph, a, a), Err(SceneError::WouldCreateCycle));
    assert_eq!(GameObjectNode::add_child(&mut graph, a, b), Ok(()));
    assert_eq!(GameObjectNode::add_child(&mut graph, b, c), Ok(()));
    assert_eq!(GameObjectNode::add_child(&mut graph, c, a), Err(SceneError::WouldCreateCycle));
    assert_eq!(a.get_parent(&graph), None);
}

#[test]
fn remove_child_requires_a_child() {
    let mut graph = SceneGraph::new();
    let a = GameObjectNode::new(&mut graph, "a");
    let b = GameObjectNode::new(&mut graph, "b");
    assert_eq!(GameObjectNode::remove_child(&mut graph, a, b), Err(SceneError::NotAChild));
}

#[test]
fn remove_child_keeps_the_subtree() {
    let mut graph = SceneGraph::new();
    let a = GameObjectNode::new(&mut graph, "a");
    let b = GameObjectNode::new(&mut graph, "b");
    let c = GameObjectNode::new(&mut graph, "c");
    let d = GameObjectNode::new(&mut graph, "d");
    GameObjectNode::add_child(&mut graph, a, b).unwrap();
    GameObjectNode::add_child(&mut graph, b, c).unwrap();
    GameObjectNode::add_child(&mut graph, a, d).unwrap();
    assert_eq!(GameObjectNode::remove_child(&mut graph, a, b), Ok(()));
    assert_eq!(b.get_parent(&graph), None);
    assert_eq!(c.get_parent(&graph), Some(b));
    assert_eq!(GameObjectNode::update_order(&graph, a), vec![a.index, d.index]);
    assert_eq!(GameObjectNode::update_order(&graph, b), vec![b.index, c.index]);
    assert_eq!(GameObjectNode::add_child(&mut graph, d, b), Ok(()));
}

#[test]
fn update_order_visits_parent_first() {
    let mut graph = SceneGraph::new();
    let c = GameObjectNode::new(&mut graph, "c");
    let b = GameObjectNode::new(&mut graph, "b");
    let a = GameObjectNode::new(&mut graph, "a");
    GameObjectNode::add_child(&mut graph, a, b).unwrap();
    GameObjectNode::add_child(&mut graph, b, c).unwrap();
    let order = GameObjectNode::update_order(&graph, a);
    assert_eq!(order, vec![a.index, b.index, c.index]);
}

#[test]
fn update_composes_ancestor_chain() {
    let mut graph = SceneGraph::new();
    let a = GameObjectNode::new(&mut graph, "a");
    let b = GameObjectNode::new(&mut graph, "b");
    let c = GameObjectNode::new(&mut graph, "c");
    GameObjectNode::add_child(&mut graph, a, b).unwrap();
    GameObjectNode::add_child(&mut graph, b, c).unwrap();
    let la = Mat4::from_translation(Vec3::new(1.0, 0.0, 0.0));
    let lb = Mat4::from_rotation_z(0.5);
    let lc = Mat4::from_scale(Vec3::new(2.0, 2.0, 2.0));
    a.set_local_transform(&mut graph, la);
    b.set_local_transform(&mut graph, lb);
    c.set_local_transform(&mut graph, lc);
    GameObjectNode::update(&mut graph, a);
    assert_eq!(a.get_world_transform(&graph), la);
    assert_eq!(b.get_world_transform(&graph), la * lb);
    assert_eq!(c.get_world_transform(&graph), (la * lb) * lc);
    assert!(!close(c.get_world_transform(&graph), lc));
}

#[test]
fn root_world_is_local() {
    let mut graph = SceneGraph::new();
    let a = GameObjectNode::new(&mut graph, "a");
    let la = Mat4::from_rotation_x(1.25);
    a.set_local_transform(&mut graph, la);
    GameObjectNode::update(&mut graph, a);
    assert_eq!(a.get_world_transform(&graph), la);
}

#[test]
fn update_leaves_other_trees_alone() {
    let mut graph = SceneGraph::new();
    let a = GameObjectNode::new(&mut graph, "a");
    let b = GameObjectNode::new(&mut graph, "b");
    b.set_local_transform(&mut graph, Mat4::from_rotation_y(0.3));
    GameObjectNode::update(&mut graph, a);
    assert_eq!(b.get_world_transform(&graph), Mat4::IDENTITY);
}

#[test]
fn detached_subtree_does_not_affect_remaining_tree() {
    let build = |with_extra: bool| {
        let mut graph = SceneGraph::new();
        let a = GameObjectNode::new(&mut graph, "a");
        let b = GameObjectNode::new(&mut graph, "b");
        GameObjectNode::add_child(&mut graph, a, b).unwrap();
        a.set_local_transform(&mut graph, Mat4::from_translation(Vec3::new(0.0, 3.0, 0.0)));
        b.set_local_transform(&mut graph, Mat4::from_rotation_x(0.7));
        if with_extra {
            let x = GameObjectNode::new(&mut graph, "x");
            let y = GameObjectNode::new(&mut graph, "y");
            GameObjectNode::add_child(&mut graph, a, x).unwrap();
            GameObjectNode::add_child(&mut graph, x, y).unwrap();
            x.set_local_transform(&mut graph, Mat4::from_scale(Vec3::new(5.0, 5.0, 5.0)));
            GameObjectNode::update(&mut graph, a);
            GameObjectNode::remove_child(&mut graph, a, x).unwrap();
        }
        GameObjectNode::update(&mut graph, a);
        (a.get_world_transform(&graph), b.get_world_transform(&graph))
    };
    assert_eq!(build(true), build(false));
}

#[test]
fn behavior_change_is_seen_in_same_pass() {
    let mut graph = SceneGraph::new();
    let a = GameObjectNode::new(&mut graph, "a");
    let b = GameObjectNode::new(&mut graph, "b");
    GameObjectNode::add_child(&mut graph, a, b).unwrap();
    update_with_rotation(&mut graph, a, b, 0.75);
    assert!(close(b.get_world_transform(&graph), Mat4::from_rotation_y(0.75)));
    assert_eq!(b.get_world_transform(&graph), b.get_local_transform(&graph));
}

#[test]
fn rotating_cube_scenario() {
    let mut graph = SceneGraph::new();
    let world = GameObjectNode::new(&mut graph, "world");
    let mut cube = GameObjectNode::new(&mut graph, "cube");
    let cube2 = GameObjectNode::new(&mut graph, "cube2");
    GameObjectNode::add_child(&mut graph, world, cube).unwrap();
    GameObjectNode::add_child(&mut graph, cube, cube2).unwrap();
    cube.add_behavior(&mut graph, 0);
    cube.set_local_transform(&mut graph, Mat4::from_translation(Vec3::new(0.0, 0.0, 0.0)));
    cube2.set_local_transform(&mut graph, Mat4::from_translation(Vec3::new(2.0, 0.0, 0.0)));
    update_with_rotation(&mut graph, world, cube, 1.0);
    let rotation = Mat4::from_rotation_y(1.0);
    assert!(close(cube.get_world_transform(&graph), rotation));
    assert!(close(
        cube2.get_world_transform(&graph),
        rotation * Mat4::from_translation(Vec3::new(2.0, 0.0, 0.0))
    ));
    assert_eq!(world.get_world_transform(&graph), Mat4::IDENTITY);
}

#[test]
fn init_lists_behaviors_in_attachment_order() {
    let mut graph = SceneGraph::new();
    let mut a = GameObjectNode::new(&mut graph, "a");
    let mut b = GameObjectNode::new(&mut graph, "b");
    let mut c = GameObjectNode::new(&mut graph, "c");
    GameObjectNode::add_child(&mut graph, a, b).unwrap();
    a.add_behavior(&mut graph, 10);
    a.add_behavior(&mut graph, 11);
    b.add_behavior(&mut graph, 20);
    c.add_behavior(&mut graph, 30);
    assert_eq!(a.get_behaviors(&graph), vec![10, 11]);
    assert_eq!(GameObjectNode::init(&graph, a), vec![10, 11, 20]);
    GameObjectNode::add_child(&mut graph, b, c).unwrap();
    assert_eq!(GameObjectNode::init(&graph, a), vec![10, 11, 20, 30]);
}

#[test]
fn mesh_reference_is_kept() {
    let mut graph = SceneGraph::new();
    let a = GameObjectNode::new(&mut graph, "a");
    a.set_mesh(&mut graph, Some(4));
    assert_eq!(a.get_mesh(&graph), Some(4));
    a.set_mesh(&mut graph, None);
    assert_eq!(a.get_mesh(&graph), None);
}
