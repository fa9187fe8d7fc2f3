use arm_ik::chain::{build_chain, Chain, Joint, JointSpec};
use arm_ik::math_utils::{Pose, Quat, Vec3, UNIT};
use arm_ik::node::{ConstructionError, JointKind, JointTree};

fn origin() -> Vec3 {
    Vec3 { x: 0, y: 0, z: 0 }
}

fn about_y() -> JointKind {
    JointKind::Rotational { axis: Vec3 { x: 0, y: UNIT, z: 0 } }
}

fn pose_at(x: i64) -> Pose {
    Pose { translation: Vec3 { x, y: 0, z: 0 }, rotation: Quat { x: 0, y: 0, z: 0, w: UNIT } }
}

fn tree_of(n: usize) -> JointTree {
    let mut tree = JointTree::new();
    for i in 0..n {
        let index = tree.add_node(JointKind::Fixed, Vec3 { x: i as i64, y: 0, z: 0 });
        assert_eq!(index, i);
    }
    tree
}

fn parents(tree: &JointTree) -> Vec<Option<usize>> {
    (0..tree.len()).map(|i| tree.node(i).unwrap().parent()).collect()
}

fn children(tree: &JointTree) -> Vec<Vec<usize>> {
    (0..tree.len()).map(|i| tree.node(i).unwrap().children().clone()).collect()
}

#[test]
fn new_tree_is_empty() {
    let tree = JointTree::new();
    assert_eq!(tree.len(), 0);
    assert!(tree.node(0).is_none());
}

#[test]
fn added_node_has_no_links_and_angle_zero() {
    let mut tree = JointTree::new();
    let index = tree.add_node(about_y(), Vec3 { x: 1, y: 2, z: 3 });
    assert_eq!(index, 0);
    assert_eq!(tree.len(), 1);
    let node = tree.node(0).unwrap();
    assert_eq!(node.kind(), about_y());
    assert_eq!(node.local_offset(), Vec3 { x: 1, y: 2, z: 3 });
    assert_eq!(node.joint_value(), 0);
    assert_eq!(node.parent(), None);
    assert!(node.children().is_empty());
    assert!(tree.node(1).is_none());
}

#[test]
fn connect_links_a_path_in_order() {
    let mut tree = tree_of(4);
    assert_eq!(tree.connect(&vec![2, 0, 3, 1]), Ok(()));
    assert_eq!(parents(&tree), vec![Some(2), Some(3), None, Some(0)]);
    assert_eq!(children(&tree), vec![vec![3], vec![], vec![0], vec![1]]);
}

#[test]
fn connect_appends_children_in_the_order_of_the_calls() {
    let mut tree = tree_of(4);
    assert_eq!(tree.connect(&vec![0, 2]), Ok(()));
    assert_eq!(tree.connect(&vec![0, 1]), Ok(()));
    assert_eq!(tree.connect(&vec![0, 3]), Ok(()));
    assert_eq!(children(&tree)[0], vec![2, 1, 3]);
    assert_eq!(parents(&tree), vec![None, Some(0), Some(0), Some(0)]);
}

#[test]
fn connect_of_a_short_path_changes_nothing() {
    let mut tree = tree_of(2);
    assert_eq!(tree.connect(&vec![]), Ok(()));
    assert_eq!(tree.connect(&vec![1]), Ok(()));
    assert_eq!(parents(&tree), vec![None, None]);
    assert_eq!(tree.connect(&vec![2]), Err(ConstructionError::UnknownNode));
}

#[test]
fn connect_refuses_an_unknown_node() {
    let mut tree = tree_of(3);
    assert_eq!(tree.connect(&vec![0, 1, 3]), Err(ConstructionError::UnknownNode));
    assert_eq!(tree.connect(&vec![7, 1]), Err(ConstructionError::UnknownNode));
    assert_eq!(parents(&tree), vec![None, None, None]);
    assert_eq!(children(&tree), vec![Vec::<usize>::new(), vec![], vec![]]);
}

#[test]
fn connect_refuses_a_second_parent() {
    let mut tree = tree_of(3);
    assert_eq!(tree.connect(&vec![0, 1]), Ok(()));
    assert_eq!(tree.connect(&vec![2, 1]), Err(ConstructionError::DuplicateParent));
    assert_eq!(parents(&tree), vec![None, Some(0), None]);
    assert_eq!(children(&tree), vec![vec![1], vec![], vec![]]);
}

#[test]
fn connect_refuses_a_node_that_comes_twice() {
    let mut tree = tree_of(3);
    assert_eq!(tree.connect(&vec![0, 1, 2, 1]), Err(ConstructionError::DuplicateParent));
    assert_eq!(parents(&tree), vec![None, None, None]);
}

#[test]
fn connect_refuses_a_cycle() {
    let mut tree = tree_of(3);
    assert_eq!(tree.connect(&vec![0, 1, 2]), Ok(()));
    assert_eq!(tree.connect(&vec![2, 0]), Err(ConstructionError::Cycle));
    assert_eq!(tree.connect(&vec![1, 0]), Err(ConstructionError::Cycle));
    assert_eq!(parents(&tree), vec![None, Some(0), Some(1)]);
    assert_eq!(children(&tree), vec![vec![1], vec![2], vec![]]);
}

#[test]
fn connect_refuses_a_loop_on_one_node() {
    let mut tree = tree_of(2);
    assert_eq!(tree.connect(&vec![0, 0]), Err(ConstructionError::Cycle));
    assert_eq!(tree.connect(&vec![0, 1, 0]), Err(ConstructionError::Cycle));
    assert_eq!(parents(&tree), vec![None, None]);
}

#[test]
fn connect_that_fails_late_changes_nothing() {
    let mut tree = tree_of(5);
    assert_eq!(tree.connect(&vec![3, 4]), Ok(()));
    assert_eq!(tree.connect(&vec![0, 1, 2, 4]), Err(ConstructionError::DuplicateParent));
    assert_eq!(parents(&tree), vec![None, None, None, None, Some(3)]);
    assert_eq!(tree.connect(&vec![4, 0, 1, 3]), Err(ConstructionError::Cycle));
    assert_eq!(parents(&tree), vec![None, None, None, None, Some(3)]);
}

#[test]
fn connect_joins_two_trees() {
    let mut tree = tree_of(4);
    assert_eq!(tree.connect(&vec![0, 1]), Ok(()));
    assert_eq!(tree.connect(&vec![2, 3]), Ok(()));
    assert_eq!(tree.connect(&vec![1, 2]), Ok(()));
    assert_eq!(parents(&tree), vec![None, Some(0), Some(1), Some(2)]);
    assert_eq!(tree.connect(&vec![3, 0]), Err(ConstructionError::Cycle));
}

#[test]
fn serial_path_follows_first_children() {
    let mut tree = tree_of(5);
    assert_eq!(tree.connect(&vec![0, 1, 2]), Ok(()));
    assert_eq!(tree.connect(&vec![1, 3]), Ok(()));
    assert_eq!(tree.connect(&vec![0, 4]), Ok(()));
    assert_eq!(tree.serial_path(0), Ok(vec![0, 1, 2]));
    assert_eq!(tree.serial_path(1), Ok(vec![1, 2]));
    assert_eq!(tree.serial_path(3), Ok(vec![3]));
    assert_eq!(tree.serial_path(5), Err(ConstructionError::UnknownNode));
}

#[test]
fn set_joint_value_on_a_tree_keeps_the_links() {
    let mut tree = tree_of(3);
    assert_eq!(tree.connect(&vec![0, 1, 2]), Ok(()));
    assert!(tree.set_joint_value(1, 42));
    assert!(!tree.set_joint_value(3, 42));
    assert_eq!(tree.node(1).unwrap().joint_value(), 42);
    assert_eq!(tree.node(0).unwrap().joint_value(), 0);
    assert_eq!(parents(&tree), vec![None, Some(0), Some(1)]);
    assert_eq!(children(&tree), vec![vec![1], vec![2], vec![]]);
}

#[test]
fn chain_from_root_takes_the_joints_of_the_path() {
    let mut tree = JointTree::new();
    let base = tree.add_node(JointKind::Fixed, origin());
    let side = tree.add_node(JointKind::Fixed, Vec3 { x: 9, y: 9, z: 9 });
    let arm = tree.add_node(about_y(), Vec3 { x: 0, y: -UNIT, z: 0 });
    assert_eq!(tree.connect(&vec![base, arm]), Ok(()));
    assert_eq!(tree.connect(&vec![base, side]), Ok(()));
    let chain = Chain::from_root(tree, base).unwrap();
    assert_eq!(chain.len(), 2);
    assert_eq!(
        chain.joint(0),
        Some(Joint { kind: JointKind::Fixed, local_offset: origin(), joint_value: 0 })
    );
    assert_eq!(
        chain.joint(1),
        Some(Joint {
            kind: about_y(),
            local_offset: Vec3 { x: 0, y: -UNIT, z: 0 },
            joint_value: 0
        })
    );
    assert_eq!(chain.joint(2), None);
    assert_eq!(chain.world_transform(0), None);
    assert_eq!(chain.world_transform(1), None);
}

#[test]
fn chain_from_root_refuses_an_unknown_root() {
    let tree = tree_of(2);
    assert_eq!(Chain::from_root(tree, 2).err(), Some(ConstructionError::UnknownNode));
}

#[test]
fn chain_from_a_node_inside_a_tree_starts_there() {
    let mut tree = tree_of(3);
    assert_eq!(tree.connect(&vec![0, 1, 2]), Ok(()));
    let chain = Chain::from_root(tree, 1).unwrap();
    assert_eq!(chain.len(), 2);
    assert_eq!(chain.joint(0).unwrap().local_offset, Vec3 { x: 1, y: 0, z: 0 });
    assert_eq!(chain.joint(1).unwrap().local_offset, Vec3 { x: 2, y: 0, z: 0 });
}

#[test]
fn build_chain_puts_the_joints_in_series() {
    let specs = vec![
        JointSpec { kind: JointKind::Fixed, local_offset: origin() },
        JointSpec { kind: about_y(), local_offset: Vec3 { x: 1, y: 0, z: 0 } },
        JointSpec { kind: about_y(), local_offset: Vec3 { x: 2, y: 0, z: 0 } },
    ];
    let chain = build_chain(&specs).unwrap();
    assert_eq!(chain.len(), 3);
    for (i, spec) in specs.iter().enumerate() {
        assert_eq!(
            chain.joint(i),
            Some(Joint { kind: spec.kind, local_offset: spec.local_offset, joint_value: 0 })
        );
        assert_eq!(chain.world_transform(i), None);
    }
    assert_eq!(chain.valid_world_transforms(), 0);
}

#[test]
fn build_chain_of_one_joint() {
    let chain = build_chain(&vec![JointSpec { kind: about_y(), local_offset: origin() }]).unwrap();
    assert_eq!(chain.len(), 1);
}

#[test]
fn build_chain_refuses_no_joints() {
    assert_eq!(build_chain(&vec![]).err(), Some(ConstructionError::NoJoints));
}

fn three_joints() -> Chain {
    build_chain(&vec![
        JointSpec { kind: about_y(), local_offset: origin() },
        JointSpec { kind: JointKind::Fixed, local_offset: origin() },
        JointSpec { kind: about_y(), local_offset: origin() },
    ])
    .unwrap()
}

#[test]
fn set_joint_value_moves_a_rotational_joint_only() {
    let mut chain = three_joints();
    assert!(chain.set_joint_value(2, 5));
    assert!(!chain.set_joint_value(1, 5));
    assert!(!chain.set_joint_value(3, 5));
    assert_eq!(chain.joint(0).unwrap().joint_value, 0);
    assert_eq!(chain.joint(1).unwrap().joint_value, 0);
    assert_eq!(chain.joint(2).unwrap().joint_value, 5);
}

#[test]
fn world_transforms_are_taken_only_whole() {
    let mut chain = three_joints();
    assert!(!chain.update_world_transforms(&vec![pose_at(0), pose_at(1)]));
    assert!(!chain.update_world_transforms(&vec![pose_at(0), pose_at(1), pose_at(2), pose_at(3)]));
    assert_eq!(chain.valid_world_transforms(), 0);
    assert!(chain.update_world_transforms(&vec![pose_at(0), pose_at(1), pose_at(2)]));
    assert_eq!(chain.valid_world_transforms(), 3);
    assert_eq!(chain.world_transform(0), Some(pose_at(0)));
    assert_eq!(chain.world_transform(1), Some(pose_at(1)));
    assert_eq!(chain.world_transform(2), Some(pose_at(2)));
    assert_eq!(chain.world_transform(3), None);
}

#[test]
fn a_new_angle_makes_the_poses_from_that_joint_on_invalid() {
    let mut chain = three_joints();
    assert!(chain.update_world_transforms(&vec![pose_at(0), pose_at(1), pose_at(2)]));
    assert!(chain.set_joint_value(2, 10));
    assert_eq!(chain.world_transform(0), Some(pose_at(0)));
    assert_eq!(chain.world_transform(1), Some(pose_at(1)));
    assert_eq!(chain.world_transform(2), None);
    assert_eq!(chain.valid_world_transforms(), 2);
    assert!(chain.set_joint_value(0, 10));
    assert_eq!(chain.world_transform(0), None);
    assert_eq!(chain.world_transform(1), None);
    assert_eq!(chain.valid_world_transforms(), 0);
}

#[test]
fn an_angle_that_is_not_taken_keeps_the_poses() {
    let mut chain = three_joints();
    assert!(chain.update_world_transforms(&vec![pose_at(0), pose_at(1), pose_at(2)]));
    assert!(!chain.set_joint_value(1, 10));
    assert!(!chain.set_joint_value(9, 10));
    assert_eq!(chain.valid_world_transforms(), 3);
}

#[test]
fn poses_downstream_of_a_joint_can_be_refreshed_alone() {
    let mut chain = three_joints();
    assert!(chain.update_world_transforms(&vec![pose_at(0), pose_at(1), pose_at(2)]));
    assert!(chain.set_joint_value(2, 10));
    assert!(chain.update_world_transforms_from(2, &vec![pose_at(7)]));
    assert_eq!(chain.world_transform(1), Some(pose_at(1)));
    assert_eq!(chain.world_transform(2), Some(pose_at(7)));
    assert!(chain.update_world_transforms_from(3, &vec![]));
    assert_eq!(chain.valid_world_transforms(), 3);
}

#[test]
fn poses_are_not_refreshed_past_an_invalid_one() {
    let mut chain = three_joints();
    assert!(chain.update_world_transforms(&vec![pose_at(0), pose_at(1), pose_at(2)]));
    assert!(chain.set_joint_value(0, 10));
    assert!(!chain.update_world_transforms_from(1, &vec![pose_at(5), pose_at(6)]));
    assert!(!chain.update_world_transforms_from(2, &vec![pose_at(6)]));
    assert!(!chain.update_world_transforms_from(4, &vec![]));
    assert!(!chain.update_world_transforms_from(0, &vec![pose_at(5)]));
    assert_eq!(chain.valid_world_transforms(), 0);
    assert!(chain.update_world_transforms_from(0, &vec![pose_at(4), pose_at(5), pose_at(6)]));
    assert_eq!(chain.world_transform(2), Some(pose_at(6)));
}
