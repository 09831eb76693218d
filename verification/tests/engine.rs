//! The engine decision cores driven with scripted leaf outcomes: the
//! end-to-end scenarios, on both the map-based and the dynamic core.

use behavior_tree::action::action_command;
use behavior_tree::bt::BT;
use behavior_tree::engine::{
    process_parent_message, FlatDynamicEngine, FlatMapEngine,
};
use behavior_tree::message::{
    acknowledges, requires_reply, ChildMessage, NodeError, ParentMessage,
};
use behavior_tree::node::Node;
use behavior_tree::status::Status;

/// The scripted outcome of a leaf: ids starting with `s` succeed, the rest
/// fail.
fn leaf_outcome(n: &Node) -> bool {
    match n {
        Node::Action(id) => id.starts_with('s'),
        Node::Condition(id) => id.starts_with('s'),
        _ => panic!("an internal node never runs"),
    }
}

/// Drives the map-based core until the tree finishes; records every leaf
/// that was started.
fn run_static(e: &mut FlatMapEngine, started: &mut Vec<Node>) -> bool {
    loop {
        let outcome = leaf_outcome(&e.current_node);
        match e.handle_current_node_finished(outcome) {
            Some(res) => return res,
            None => started.push(e.current_node.clone()),
        }
    }
}

/// Drives the dynamic core until the tree finishes; records every leaf
/// that was started.
fn run_dynamic(e: &mut FlatDynamicEngine, started: &mut Vec<Node>) -> bool {
    loop {
        let outcome = leaf_outcome(&e.current_node);
        match e.handle_current_node_finished(outcome) {
            Some(res) => return res,
            None => started.push(e.current_node.clone()),
        }
    }
}

#[test]
fn test_leaf_success() {
    let root = Node::Action("s_always_true".to_string());
    let bt = BT::new().test_root(root.clone()).name("test_tree".to_string());

    let mut e = FlatMapEngine::new(&bt);
    assert_eq!(e.current_node, root);
    let res = e.handle_current_node_finished(true);
    assert_eq!(res, Some(true));

    let done = bt.finish(true);
    assert!(done.result());
}

#[test]
fn test_sequence_short_circuit() {
    let a1 = Node::Action("s1".to_string());
    let a2 = Node::Action("f2".to_string());
    let a3 = Node::Action("s3".to_string());
    let root = Node::Sequence(vec![a1.clone(), a2.clone(), a3.clone()]);
    let bt = BT::new().test_root(root.clone()).name("test_tree".to_string());

    let mut e = FlatMapEngine::new(&bt);
    let mut started = vec![e.current_node.clone()];
    let res = run_static(&mut e, &mut started);
    assert!(!res);
    assert!(started.contains(&a1));
    assert!(started.contains(&a2));
    assert!(!started.contains(&a3));

    let mut d = FlatDynamicEngine::new(&bt);
    let mut started_d = vec![d.current_node.clone()];
    let res_d = run_dynamic(&mut d, &mut started_d);
    assert_eq!(res, res_d);
    assert_eq!(started, started_d);
}

#[test]
fn test_fallback_recovery() {
    let a1 = Node::Action("f1".to_string());
    let a2 = Node::Action("s2".to_string());
    let a3 = Node::Action("f3".to_string());
    let root = Node::Fallback(vec![a1.clone(), a2.clone(), a3.clone()]);
    let bt = BT::new().test_root(root.clone()).name("test_tree".to_string());

    let mut e = FlatMapEngine::new(&bt);
    let mut started = vec![e.current_node.clone()];
    let res = run_static(&mut e, &mut started);
    assert!(res);
    assert_eq!(started, vec![a1.clone(), a2.clone()]);

    let mut d = FlatDynamicEngine::new(&bt);
    let mut started_d = vec![d.current_node.clone()];
    let res_d = run_dynamic(&mut d, &mut started_d);
    assert_eq!(res, res_d);
    assert_eq!(started, started_d);
}

#[test]
fn test_condition_gating_true() {
    // the observed value starts positive: the condition holds, the action
    // runs, the tree succeeds
    let cond = Node::Condition("s_x_pos".to_string());
    let act = Node::Action("s_act".to_string());
    let root = Node::Sequence(vec![cond.clone(), act.clone()]);
    let bt = BT::new().test_root(root.clone()).name("test_tree".to_string());

    let mut e = FlatMapEngine::new(&bt);
    assert_eq!(e.current_node, cond);
    assert_eq!(e.handle_current_node_finished(true), None);
    // the finished condition stays watched
    assert_eq!(e.active_conditions, vec![cond.clone()]);
    assert_eq!(e.current_node, act);
    assert_eq!(e.handle_current_node_finished(true), Some(true));
}

#[test]
fn test_condition_gating_false() {
    // the observed value starts at zero: the tree fails without starting
    // the action
    let cond = Node::Condition("f_x_zero".to_string());
    let act = Node::Action("s_act".to_string());
    let root = Node::Sequence(vec![cond.clone(), act.clone()]);
    let bt = BT::new().test_root(root.clone()).name("test_tree".to_string());

    let mut e = FlatMapEngine::new(&bt);
    assert_eq!(e.current_node, cond);
    assert_eq!(e.handle_current_node_finished(false), Some(false));
    // the action was never reached
    assert_eq!(e.current_node, cond);
}

#[test]
fn test_mid_action_condition_flip() {
    // the condition holds, a long action starts; then the observed value
    // flips and the tree fails before the action ever finishes
    let cond = Node::Condition("s_x_pos".to_string());
    let wait = Node::Action("s_wait".to_string());
    let root = Node::Sequence(vec![cond.clone(), wait.clone()]);
    let bt = BT::new().test_root(root.clone()).name("test_tree".to_string());

    let mut e = FlatMapEngine::new(&bt);
    assert_eq!(e.handle_current_node_finished(true), None);
    assert_eq!(e.current_node, wait);
    assert_eq!(e.active_conditions, vec![cond.clone()]);

    let (res, stopped) = e.handle_condition_trigger(&cond, false, 0);
    assert_eq!(res, Some(false));
    assert_eq!(stopped, Vec::<Node>::new());
}

#[test]
fn test_mid_action_condition_flip_dynamic() {
    let cond = Node::Condition("s_x_pos".to_string());
    let wait = Node::Action("s_wait".to_string());
    let root = Node::Sequence(vec![cond.clone(), wait.clone()]);
    let bt = BT::new().test_root(root.clone()).name("test_tree".to_string());

    let mut e = FlatDynamicEngine::new(&bt);
    assert_eq!(e.handle_current_node_finished(true), None);
    assert_eq!(e.current_node, wait);
    assert_eq!(e.active_conditions.len(), 1);
    assert_eq!(e.active_conditions[0].0, cond);

    let (res, stopped) = e.handle_condition_trigger(false, 0);
    assert_eq!(res, Some(false));
    assert!(stopped.is_empty());
}

#[test]
fn test_nested_preemption() {
    // the inner wait is cancelled by the flip and the fallback recovers
    // through its second child
    let cond = Node::Condition("s_c_pos".to_string());
    let wait = Node::Action("s_wait".to_string());
    let act = Node::Action("s_a".to_string());
    let seq = Node::Sequence(vec![cond.clone(), wait.clone()]);
    let root = Node::Fallback(vec![seq.clone(), act.clone()]);
    let bt = BT::new().test_root(root.clone()).name("test_tree".to_string());

    let mut e = FlatMapEngine::new(&bt);
    assert_eq!(e.current_node, cond);
    assert_eq!(e.handle_current_node_finished(true), None);
    assert_eq!(e.current_node, wait);

    let (res, stopped) = e.handle_condition_trigger(&cond, false, 0);
    assert_eq!(res, None);
    assert_eq!(stopped, Vec::<Node>::new());
    assert_eq!(e.current_node, act);

    assert_eq!(e.handle_current_node_finished(true), Some(true));
}

#[test]
fn test_nested_preemption_dynamic() {
    let cond = Node::Condition("s_c_pos".to_string());
    let wait = Node::Action("s_wait".to_string());
    let act = Node::Action("s_a".to_string());
    let seq = Node::Sequence(vec![cond.clone(), wait.clone()]);
    let root = Node::Fallback(vec![seq.clone(), act.clone()]);
    let bt = BT::new().test_root(root.clone()).name("test_tree".to_string());

    let mut e = FlatDynamicEngine::new(&bt);
    assert_eq!(e.handle_current_node_finished(true), None);
    assert_eq!(e.current_node, wait);

    let (res, _stopped) = e.handle_condition_trigger(false, 0);
    assert_eq!(res, None);
    assert_eq!(e.current_node, act);

    assert_eq!(e.handle_current_node_finished(true), Some(true));
}

#[test]
fn test_deeper_condition_stopped_on_outer_flip() {
    // two nested conditions are watched; when the outer one flips, the
    // deeper one is handed back to be stopped
    let c1 = Node::Condition("s_outer".to_string());
    let c2 = Node::Condition("s_inner".to_string());
    let act = Node::Action("s_act".to_string());
    let root = Node::Sequence(vec![c1.clone(), c2.clone(), act.clone()]);
    let bt = BT::new().test_root(root.clone()).name("test_tree".to_string());

    let mut e = FlatMapEngine::new(&bt);
    assert_eq!(e.handle_current_node_finished(true), None);
    assert_eq!(e.handle_current_node_finished(true), None);
    assert_eq!(e.current_node, act);
    assert_eq!(e.active_conditions, vec![c1.clone(), c2.clone()]);

    let (res, stopped) = e.handle_condition_trigger(&c1, false, 0);
    assert_eq!(res, Some(false));
    assert_eq!(stopped, vec![c2.clone()]);
    assert_eq!(e.active_conditions, vec![c1.clone()]);
}

#[test]
fn test_process_parent_message_outcomes() {
    assert_eq!(
        process_parent_message(&ParentMessage::Status(Status::Success)),
        Some(true)
    );
    assert_eq!(
        process_parent_message(&ParentMessage::Status(Status::Failure)),
        Some(false)
    );
    assert_eq!(
        process_parent_message(&ParentMessage::Status(Status::Running)),
        None
    );
    assert_eq!(
        process_parent_message(&ParentMessage::Status(Status::Idle)),
        None
    );
    assert_eq!(
        process_parent_message(&ParentMessage::Poison(NodeError::PoisonError(
            "boom".to_string()
        ))),
        Some(false)
    );
    assert_eq!(
        process_parent_message(&ParentMessage::Poison(
            NodeError::ExecutionError("user body failed".to_string())
        )),
        Some(false)
    );
    assert_eq!(
        process_parent_message(&ParentMessage::Poison(NodeError::KillError)),
        Some(false)
    );
    assert_eq!(
        process_parent_message(&ParentMessage::Poison(NodeError::ChannelError(
            "peer gone".to_string()
        ))),
        Some(false)
    );
    assert_eq!(process_parent_message(&ParentMessage::Killed), Some(false));
}

#[test]
fn test_flip_inside_sequence_does_not_recover_through_sibling_fallback() {
    // in Sequence([C, Fallback([X, Y])]) a flip of C to failure fails the
    // whole tree: the fallback beside C never gets a second try
    let cond = Node::Condition("s_c".to_string());
    let x = Node::Action("s_x".to_string());
    let y = Node::Action("s_y".to_string());
    let fb = Node::Fallback(vec![x.clone(), y.clone()]);
    let root = Node::Sequence(vec![cond.clone(), fb.clone()]);
    let bt = BT::new().test_root(root.clone()).name("test_tree".to_string());

    let mut d = FlatDynamicEngine::new(&bt);
    assert_eq!(d.handle_current_node_finished(true), None);
    assert_eq!(d.current_node, x);
    let (res_d, _) = d.handle_condition_trigger(false, 0);
    assert_eq!(res_d, Some(false));

    let mut e = FlatMapEngine::new(&bt);
    assert_eq!(e.handle_current_node_finished(true), None);
    assert_eq!(e.current_node, x);
    let (res_s, _) = e.handle_condition_trigger(&cond, false, 0);
    assert_eq!(res_s, res_d);
}

#[test]
fn test_flip_inside_fallback_arm_recovers_into_sibling() {
    // in Sequence([Fallback([C, A]), B]) a flip of C to failure recovers
    // into A, the condition's sibling inside the fallback
    let cond = Node::Condition("s_c".to_string());
    let a = Node::Action("s_a".to_string());
    let b = Node::Action("s_b".to_string());
    let fb = Node::Fallback(vec![cond.clone(), a.clone()]);
    let root = Node::Sequence(vec![fb.clone(), b.clone()]);
    let bt = BT::new().test_root(root.clone()).name("test_tree".to_string());

    let mut d = FlatDynamicEngine::new(&bt);
    assert_eq!(d.handle_current_node_finished(true), None);
    assert_eq!(d.current_node, b);
    let (res_d, _) = d.handle_condition_trigger(false, 0);
    assert_eq!(res_d, None);
    assert_eq!(d.current_node, a);

    let mut e = FlatMapEngine::new(&bt);
    assert_eq!(e.handle_current_node_finished(true), None);
    assert_eq!(e.current_node, b);
    let (res_s, _) = e.handle_condition_trigger(&cond, false, 0);
    assert_eq!(res_s, None);
    assert_eq!(e.current_node, a);
}

#[test]
fn test_handshake_decisions() {
    assert!(!requires_reply(&ChildMessage::Start));
    assert!(requires_reply(&ChildMessage::Stop));
    assert!(requires_reply(&ChildMessage::Kill));
    assert!(acknowledges(&ParentMessage::Killed));
    assert!(acknowledges(&ParentMessage::Status(Status::Idle)));
    assert!(!acknowledges(&ParentMessage::Status(Status::Success)));
    assert!(!acknowledges(&ParentMessage::Status(Status::Failure)));
    assert!(!acknowledges(&ParentMessage::Status(Status::Running)));
    assert!(!acknowledges(&ParentMessage::Poison(NodeError::KillError)));
}

#[test]
fn test_action_command_table() {
    assert_eq!(action_command(&ChildMessage::Start), Some(Status::Running));
    assert_eq!(action_command(&ChildMessage::Stop), Some(Status::Idle));
    assert_eq!(action_command(&ChildMessage::Kill), None);
    assert_eq!(Status::from(true), Status::Success);
    assert_eq!(Status::from(false), Status::Failure);
}
