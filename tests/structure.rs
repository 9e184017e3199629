use mannequin_ik::plan::{choose_target, SecondaryBlocks, TargetChoice, TickPlan};
use mannequin_ik::rig::{EffectorSpec, Joint, Method, RebuildError, Rig};
use mannequin_ik::tree::depth_order;

/// bone 0 is the root, 1 hangs from 0, 2 from 1.
fn chain(n: usize) -> Vec<Option<usize>> {
    (0..n).map(|i| if i == 0 { None } else { Some(i - 1) }).collect()
}

#[test]
fn depth_order_of_a_chain() {
    assert_eq!(depth_order(&chain(4)), Some(vec![0, 1, 2, 3]));
}

#[test]
fn depth_order_puts_parents_first_and_levels_in_index_order() {
    // 3 is the root; 0 and 4 hang from 3; 1 from 4; 2 from 0.
    let parents = vec![Some(3), Some(4), Some(0), None, Some(3)];
    assert_eq!(depth_order(&parents), Some(vec![3, 0, 4, 1, 2]));
}

#[test]
fn depth_order_with_two_roots() {
    let parents = vec![None, None, Some(1), Some(0)];
    assert_eq!(depth_order(&parents), Some(vec![0, 1, 2, 3]));
}

#[test]
fn depth_order_of_no_bones() {
    assert_eq!(depth_order(&vec![]), Some(vec![]));
}

#[test]
fn depth_order_refuses_a_cycle() {
    let parents = vec![None, Some(2), Some(1)];
    assert_eq!(depth_order(&parents), None);
}

#[test]
fn depth_order_refuses_a_dangling_parent() {
    let parents = vec![None, Some(7)];
    assert_eq!(depth_order(&parents), None);
}

#[test]
fn depth_order_refuses_a_self_parent() {
    let parents = vec![Some(0)];
    assert_eq!(depth_order(&parents), None);
}

#[test]
fn new_rig_is_empty() {
    let rig = Rig::new();
    assert_eq!(rig.shape(), (0, 0));
    assert_eq!(rig.joint_count(), 0);
    assert_eq!(rig.method(), Method::Gradient);
    assert!(rig.joints().is_empty());
}

#[test]
fn rebuild_two_joint_chain() {
    let mut rig = Rig::new();
    let r = rig.rebuild(&chain(2), &vec![true, true], Some(1), None, Method::Gradient);
    assert_eq!(r, Ok(()));
    assert_eq!(rig.joint_count(), 2);
    assert_eq!(rig.active(), &vec![0, 1]);
    assert_eq!(rig.effectors(), &vec![EffectorSpec { joint: 1, dim: 3 }]);
    assert_eq!(
        rig.joints(),
        &vec![
            Joint { id: 0, parent: None, effector: false, orientation: false, active: true },
            Joint { id: 1, parent: Some(0), effector: true, orientation: false, active: true },
        ]
    );
    assert_eq!(rig.shape(), (3, 2));
}

#[test]
fn rebuild_leaves_disabled_bones_out_of_the_active_set() {
    let mut rig = Rig::new();
    let enabled = vec![false, true, false, true];
    assert_eq!(rig.rebuild(&chain(4), &enabled, Some(3), None, Method::Solve), Ok(()));
    assert_eq!(rig.active(), &vec![1, 3]);
    assert_eq!(rig.shape(), (3, 2));
    assert_eq!(rig.joint_count(), 4);
    assert!(!rig.joints()[0].active);
    assert!(rig.joints()[1].active);
}

#[test]
fn rebuild_orientation_marks_every_joint() {
    let mut rig = Rig::new();
    assert_eq!(rig.rebuild(&chain(3), &vec![true; 3], Some(2), Some(1), Method::Orientation), Ok(()));
    assert!(rig.joints().iter().all(|j| j.orientation));
    assert_eq!(rig.effectors(), &vec![EffectorSpec { joint: 2, dim: 6 }]);
    assert_eq!(rig.shape(), (6, 3));
    assert_eq!(rig.effector_rows(0), (0, 6));
}

#[test]
fn rebuild_secondary_adds_the_second_effector_in_tree_order() {
    // 0 root; 1 and 2 children of 0; 3 child of 2.
    let parents = vec![None, Some(0), Some(0), Some(2)];
    let mut rig = Rig::new();
    assert_eq!(rig.rebuild(&parents, &vec![true; 4], Some(3), Some(1), Method::Secondary), Ok(()));
    assert_eq!(
        rig.effectors(),
        &vec![EffectorSpec { joint: 1, dim: 3 }, EffectorSpec { joint: 3, dim: 3 }]
    );
    assert_eq!(rig.shape(), (6, 4));
    assert_eq!(rig.effector_rows(0), (0, 3));
    assert_eq!(rig.effector_rows(1), (3, 6));
}

#[test]
fn rebuild_ignores_the_secondary_effector_outside_secondary_mode() {
    let mut rig = Rig::new();
    assert_eq!(rig.rebuild(&chain(3), &vec![true; 3], Some(2), Some(1), Method::Gradient), Ok(()));
    assert_eq!(rig.effectors(), &vec![EffectorSpec { joint: 2, dim: 3 }]);
    assert!(!rig.joints()[1].effector);
}

#[test]
fn rebuild_with_unresolved_secondary_effector_succeeds() {
    let mut rig = Rig::new();
    assert_eq!(rig.rebuild(&chain(3), &vec![true; 3], Some(2), None, Method::Secondary), Ok(()));
    assert_eq!(rig.effectors(), &vec![EffectorSpec { joint: 2, dim: 3 }]);
    assert_eq!(rig.plan_tick(true, true, false), TickPlan::NoSecondaryEffector);
}

#[test]
fn rebuild_without_main_effector_keeps_prior_state() {
    let mut rig = Rig::new();
    assert_eq!(rig.rebuild(&chain(2), &vec![true, true], Some(1), None, Method::Gradient), Ok(()));
    let r = rig.rebuild(&chain(3), &vec![true; 3], None, None, Method::Solve);
    assert_eq!(r, Err(RebuildError::MainEffectorNotFound));
    assert_eq!(rig.joint_count(), 2);
    assert_eq!(rig.method(), Method::Gradient);
    assert_eq!(rig.shape(), (3, 2));
}

#[test]
fn rebuild_with_out_of_range_main_effector_fails() {
    let mut rig = Rig::new();
    let r = rig.rebuild(&chain(3), &vec![true; 3], Some(3), None, Method::Gradient);
    assert_eq!(r, Err(RebuildError::MainEffectorNotFound));
    assert_eq!(rig.joint_count(), 0);
}

#[test]
fn rebuild_of_a_cyclic_hierarchy_fails() {
    let mut rig = Rig::new();
    let parents = vec![None, Some(2), Some(1)];
    let r = rig.rebuild(&parents, &vec![true; 3], Some(0), None, Method::Gradient);
    assert_eq!(r, Err(RebuildError::MalformedHierarchy));
    assert_eq!(rig.joint_count(), 0);
}

#[test]
fn rebuild_twice_gives_the_same_configuration() {
    let parents = vec![None, Some(0), Some(0), Some(2)];
    let enabled = vec![true, false, true, true];
    let mut rig = Rig::new();
    assert_eq!(rig.rebuild(&parents, &enabled, Some(3), Some(1), Method::Secondary), Ok(()));
    let joints = rig.joints().clone();
    let active = rig.active().clone();
    let effectors = rig.effectors().clone();
    assert_eq!(rig.rebuild(&parents, &enabled, Some(3), Some(1), Method::Secondary), Ok(()));
    assert_eq!(rig.joints(), &joints);
    assert_eq!(rig.active(), &active);
    assert_eq!(rig.effectors(), &effectors);
    assert_eq!(rig.joint_count(), 4);
}

#[test]
fn jacobian_shape_counts_active_joints_and_effector_outputs() {
    let parents = vec![None, Some(0), Some(1), Some(0), Some(3)];
    let enabled = vec![true, true, false, true, true];
    let mut rig = Rig::new();
    assert_eq!(rig.rebuild(&parents, &enabled, Some(2), Some(4), Method::Secondary), Ok(()));
    let dims: usize = rig.effectors().iter().map(|e| e.dim).sum();
    assert_eq!(rig.shape(), (dims, rig.active().len()));
    assert_eq!(rig.shape(), (6, 4));
}

#[test]
fn choose_target_within_threshold() {
    assert_eq!(choose_target(false, true), TargetChoice::Measured);
    assert_eq!(choose_target(false, false), TargetChoice::Measured);
}

#[test]
fn choose_target_beyond_threshold_with_default() {
    assert_eq!(choose_target(true, true), TargetChoice::Fallback);
}

#[test]
fn choose_target_beyond_threshold_without_default() {
    assert_eq!(choose_target(true, false), TargetChoice::MeasuredWithoutFallback);
}

#[test]
fn plan_tick_per_method() {
    let mut rig = Rig::new();
    assert_eq!(rig.plan_tick(true, true, true), TickPlan::Idle);
    assert_eq!(rig.rebuild(&chain(2), &vec![true; 2], Some(1), None, Method::Gradient), Ok(()));
    assert_eq!(rig.plan_tick(true, false, false), TickPlan::Gradient);
    assert_eq!(rig.plan_tick(false, true, true), TickPlan::Idle);
    assert_eq!(rig.rebuild(&chain(2), &vec![true; 2], Some(1), None, Method::Solve), Ok(()));
    assert_eq!(rig.plan_tick(true, false, false), TickPlan::Solve);
    assert_eq!(rig.rebuild(&chain(2), &vec![true; 2], Some(1), None, Method::Orientation), Ok(()));
    assert_eq!(rig.plan_tick(true, false, true), TickPlan::Orientation);
    assert_eq!(rig.plan_tick(true, false, false), TickPlan::NoOrientationReference);
}

#[test]
fn plan_tick_secondary_pairs_blocks() {
    let mut rig = Rig::new();
    assert_eq!(rig.rebuild(&chain(3), &vec![true; 3], Some(2), Some(1), Method::Secondary), Ok(()));
    assert_eq!(rig.plan_tick(true, false, false), TickPlan::NoSecondaryTarget);
    assert_eq!(
        rig.plan_tick(true, true, false),
        TickPlan::Secondary(SecondaryBlocks {
            primary_output: 1,
            primary_rows: (3, 6),
            secondary_output: 0,
            secondary_rows: (0, 3),
        })
    );
}

#[test]
fn affects_follows_the_ancestor_chain() {
    // 0 root; 1 and 2 children of 0; 3 child of 2.
    let parents = vec![None, Some(0), Some(0), Some(2)];
    let mut rig = Rig::new();
    assert_eq!(rig.rebuild(&parents, &vec![true; 4], Some(3), Some(1), Method::Secondary), Ok(()));
    // effector 0 is bone 1, effector 1 is bone 3; column c is bone c.
    assert!(rig.affects(0, 0));
    assert!(rig.affects(1, 0));
    assert!(!rig.affects(2, 0));
    assert!(!rig.affects(3, 0));
    assert!(rig.affects(0, 1));
    assert!(!rig.affects(1, 1));
    assert!(rig.affects(2, 1));
    assert!(rig.affects(3, 1));
}

#[test]
fn affects_skips_disabled_bones_in_column_numbering() {
    let mut rig = Rig::new();
    assert_eq!(rig.rebuild(&chain(3), &vec![false, true, true], Some(1), None, Method::Gradient), Ok(()));
    assert_eq!(rig.active(), &vec![1, 2]);
    assert!(rig.affects(0, 0));
    assert!(!rig.affects(1, 0));
}
