//! The converter's map on hand-built trees.

use behavior_tree::bt::BT;
use behavior_tree::converter::convert_bt;
use behavior_tree::node::Node;
use behavior_tree::status::Status;

#[test]
fn test_convert_simple_action_root() {
    let action = Node::Action("1".to_string());
    let bt = BT::new().test_root(action.clone()).name("test_tree".to_string());

    let map = convert_bt(&bt);

    assert_eq!(map.get(&(action.clone(), Status::Success)), Some(None));
    assert_eq!(map.get(&(action.clone(), Status::Failure)), Some(None));
    let other = Node::Action("2".to_string());
    assert_eq!(map.get(&(other, Status::Success)), None);
}

#[test]
fn test_condition_then_action() {
    let cond = Node::Condition("cond1".to_string());
    let action = Node::Action("1".to_string());
    let seq = Node::Sequence(vec![cond.clone(), action.clone()]);
    let bt = BT::new().test_root(seq).name("test_tree".to_string());

    let map = convert_bt(&bt);

    // condition, success: the action
    assert_eq!(
        map.get(&(cond.clone(), Status::Success)),
        Some(Some(action.clone()))
    );
    // condition, failure: the tree ends
    assert_eq!(map.get(&(cond.clone(), Status::Failure)), Some(None));
    // the action always ends the tree
    assert_eq!(map.get(&(action.clone(), Status::Success)), Some(None));
    assert_eq!(map.get(&(action.clone(), Status::Failure)), Some(None));
}

#[test]
fn test_fallback_cond_then_action_and_action2() {
    let cond = Node::Condition("cond1".to_string());
    let a1 = Node::Action("1".to_string());
    let a2 = Node::Action("2".to_string());
    let fb = Node::Fallback(vec![
        Node::Sequence(vec![cond.clone(), a1.clone()]),
        a2.clone(),
    ]);
    let bt = BT::new().test_root(fb).name("test_tree".to_string());

    let map = convert_bt(&bt);

    assert_eq!(
        map.get(&(cond.clone(), Status::Success)),
        Some(Some(a1.clone()))
    );
    assert_eq!(
        map.get(&(cond.clone(), Status::Failure)),
        Some(Some(a2.clone()))
    );
    assert_eq!(map.get(&(a1.clone(), Status::Success)), Some(None));
    assert_eq!(
        map.get(&(a1.clone(), Status::Failure)),
        Some(Some(a2.clone()))
    );
    assert_eq!(map.get(&(a2.clone(), Status::Success)), Some(None));
    assert_eq!(map.get(&(a2.clone(), Status::Failure)), Some(None));
}

#[test]
fn test_long_sequence_chain() {
    let cond1 = Node::Condition("c1".to_string());
    let cond2 = Node::Condition("c2".to_string());
    let act = Node::Action("1".to_string());
    let seq = Node::Sequence(vec![cond1.clone(), cond2.clone(), act.clone()]);
    let bt = BT::new().test_root(seq).name("test_tree".to_string());

    let map = convert_bt(&bt);

    assert_eq!(
        map.get(&(cond1.clone(), Status::Success)),
        Some(Some(cond2.clone()))
    );
    assert_eq!(
        map.get(&(cond2.clone(), Status::Success)),
        Some(Some(act.clone()))
    );
    assert_eq!(map.get(&(act.clone(), Status::Success)), Some(None));
    assert_eq!(map.get(&(cond1.clone(), Status::Failure)), Some(None));
    assert_eq!(map.get(&(cond2.clone(), Status::Failure)), Some(None));
    assert_eq!(map.get(&(act.clone(), Status::Failure)), Some(None));
}

#[test]
fn test_multiple_paths_and_selectors() {
    let cond1 = Node::Condition("c1".to_string());
    let a1 = Node::Action("1".to_string());
    let cond2 = Node::Condition("c2".to_string());
    let a2 = Node::Action("2".to_string());
    let a3 = Node::Action("3".to_string());
    let fb = Node::Fallback(vec![
        Node::Sequence(vec![cond1.clone(), a1.clone()]),
        Node::Sequence(vec![cond2.clone(), a2.clone()]),
        a3.clone(),
    ]);
    let bt = BT::new().test_root(fb).name("test_tree".to_string());

    let map = convert_bt(&bt);

    assert_eq!(
        map.get(&(cond1.clone(), Status::Success)),
        Some(Some(a1.clone()))
    );
    assert_eq!(
        map.get(&(cond1.clone(), Status::Failure)),
        Some(Some(cond2.clone()))
    );
    assert_eq!(
        map.get(&(a1.clone(), Status::Failure)),
        Some(Some(cond2.clone()))
    );
    assert_eq!(
        map.get(&(cond2.clone(), Status::Success)),
        Some(Some(a2.clone()))
    );
    assert_eq!(
        map.get(&(cond2.clone(), Status::Failure)),
        Some(Some(a3.clone()))
    );
    assert_eq!(
        map.get(&(a2.clone(), Status::Failure)),
        Some(Some(a3.clone()))
    );
    assert_eq!(map.get(&(a3.clone(), Status::Failure)), Some(None));
    for a in [a1.clone(), a2.clone(), a3.clone()] {
        assert_eq!(map.get(&(a, Status::Success)), Some(None));
    }
}

#[test]
fn test_converter_is_deterministic() {
    // two conversions of one tree yield one map
    let cond = Node::Condition("c".to_string());
    let a1 = Node::Action("1".to_string());
    let a2 = Node::Action("2".to_string());
    let root = Node::Fallback(vec![
        Node::Sequence(vec![cond.clone(), a1.clone()]),
        a2.clone(),
    ]);
    let bt = BT::new().test_root(root).name("test_tree".to_string());
    let first = convert_bt(&bt);
    let second = convert_bt(&bt);
    assert_eq!(first, second);
}
