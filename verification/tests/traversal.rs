//! Traversal over hand-built trees: where the first descent stops, and
//! where the walk after a finished leaf resumes.

use behavior_tree::bt::BT;
use behavior_tree::node::Node;
use behavior_tree::status::Status;
use behavior_tree::traversal::{search_next, search_start};

#[test]
fn test_auto_failure() {
    let root = Node::Action("1".to_string());
    let bt = BT::new().test_root(root.clone()).name("test_tree".to_string());

    let trace = search_start(&bt);

    assert_eq!(trace, vec![root]);
}

#[test]
fn test_auto_success() {
    let root = Node::Action("1".to_string());
    let bt = BT::new().test_root(root.clone()).name("test_tree".to_string());

    let trace = search_start(&bt);

    assert_eq!(trace, vec![root]);
}

#[test]
fn test_condition_true_stops_at_condition() {
    let root = Node::Condition("cond1".to_string());
    let bt = BT::new().test_root(root.clone()).name("test_tree".to_string());

    let trace = search_start(&bt);

    assert_eq!(trace, vec![root]);
}

#[test]
fn test_sequence_hits_first_action() {
    let root = Node::Sequence(vec![
        Node::Action("a1".to_string()),
        Node::Action("a2".to_string()),
    ]);
    let bt = BT::new().test_root(root.clone()).name("test_tree".to_string());

    let trace = search_start(&bt);

    assert_eq!(trace, vec![root.clone(), Node::Action("a1".to_string())]);
}

#[test]
fn test_sequence_condition_stops_sequence() {
    let root = Node::Sequence(vec![
        Node::Condition("cond".to_string()),
        Node::Action("a2".to_string()),
    ]);
    let bt = BT::new().test_root(root.clone()).name("test_tree".to_string());

    let trace = search_start(&bt);

    assert_eq!(trace, vec![root.clone(), Node::Condition("cond".to_string())]);
}

#[test]
fn test_fallback_hits_first_action() {
    let root = Node::Fallback(vec![
        Node::Action("fail1".to_string()),
        Node::Action("succ".to_string()),
    ]);
    let bt = BT::new().test_root(root.clone()).name("test_tree".to_string());

    let trace = search_start(&bt);

    assert_eq!(trace, vec![root.clone(), Node::Action("fail1".to_string())]);
}

#[test]
fn test_fallback_condition_as_first_child() {
    let root = Node::Fallback(vec![
        Node::Condition("cond_fb".to_string()),
        Node::Action("a2".to_string()),
    ]);
    let bt = BT::new().test_root(root.clone()).name("test_tree".to_string());

    let trace = search_start(&bt);

    assert_eq!(trace, vec![
        root.clone(),
        Node::Condition("cond_fb".to_string()),
    ]);
}

#[test]
fn test_nested_sequence_and_fallback() {
    let fb = Node::Fallback(vec![
        Node::Action("fail".to_string()),
        Node::Action("act".to_string()),
    ]);
    let root = Node::Sequence(vec![
        Node::Condition("cond_nested".to_string()),
        fb.clone(),
    ]);
    let bt = BT::new().test_root(root.clone()).name("test_tree".to_string());

    let trace = search_start(&bt);

    assert_eq!(trace, vec![
        root.clone(),
        Node::Condition("cond_nested".to_string()),
    ]);
}

#[test]
fn test_fallback_sequence_condition_then_action() {
    let seq = Node::Sequence(vec![
        Node::Condition("cond1".to_string()),
        Node::Action("a1".to_string()),
    ]);
    let root = Node::Fallback(vec![seq.clone(), Node::Action("a2".to_string())]);
    let bt = BT::new().test_root(root.clone()).name("test_tree".to_string());

    let trace = search_start(&bt);

    assert_eq!(trace, vec![
        root.clone(),
        seq.clone(),
        Node::Condition("cond1".to_string()),
    ]);
}

#[test]
fn test_search_next_sequence_continue() {
    let root = Node::Sequence(vec![
        Node::Condition("cond1".to_string()),
        Node::Action("a1".to_string()),
        Node::Action("a2".to_string()),
    ]);
    let bt = BT::new().test_root(root.clone()).name("test_tree".to_string());

    let start = search_start(&bt);
    assert_eq!(start, vec![
        root.clone(),
        Node::Condition("cond1".to_string()),
    ]);

    let next = search_next(start.clone(), &Status::Success);

    assert_eq!(next, vec![root.clone(), Node::Action("a1".to_string())]);
}

#[test]
fn test_search_next_sequence_stops_on_failure() {
    let root = Node::Sequence(vec![
        Node::Condition("cond1".to_string()),
        Node::Action("a1".to_string()),
    ]);
    let bt = BT::new().test_root(root.clone()).name("test_tree".to_string());

    let start = search_start(&bt);
    assert_eq!(start, vec![
        root.clone(),
        Node::Condition("cond1".to_string()),
    ]);

    let next = search_next(start.clone(), &Status::Failure);

    assert_eq!(next, vec![]);
}

#[test]
fn test_search_next_fallback_continue_on_failure() {
    let root = Node::Fallback(vec![
        Node::Condition("c1".to_string()),
        Node::Action("a1".to_string()),
    ]);
    let bt = BT::new().test_root(root.clone()).name("test_tree".to_string());

    let start = search_start(&bt);
    assert_eq!(start, vec![root.clone(), Node::Condition("c1".to_string())]);

    let next = search_next(start.clone(), &Status::Failure);

    assert_eq!(next, vec![root.clone(), Node::Action("a1".to_string())]);
}

#[test]
fn test_search_next_fallback_stop_on_success() {
    let root = Node::Fallback(vec![
        Node::Condition("c1".to_string()),
        Node::Action("a1".to_string()),
    ]);
    let bt = BT::new().test_root(root.clone()).name("test_tree".to_string());

    let start = search_start(&bt);
    assert_eq!(start, vec![root.clone(), Node::Condition("c1".to_string())]);

    let next = search_next(start.clone(), &Status::Success);

    assert_eq!(next, vec![]);
}

#[test]
fn test_search_next_nested() {
    let seq = Node::Sequence(vec![
        Node::Condition("c1".to_string()),
        Node::Action("a1".to_string()),
    ]);
    let root = Node::Fallback(vec![seq.clone(), Node::Action("a2".to_string())]);
    let bt = BT::new().test_root(root.clone()).name("test_tree".to_string());

    let start = search_start(&bt);
    assert_eq!(start, vec![
        root.clone(),
        seq.clone(),
        Node::Condition("c1".to_string()),
    ]);

    let next = search_next(start.clone(), &Status::Failure);

    assert_eq!(next, vec![root.clone(), Node::Action("a2".to_string())]);
}

#[test]
fn test_search_next_on_root_returns_empty() {
    let root = Node::Action("a1".to_string());
    let bt = BT::new().test_root(root.clone()).name("test_tree".to_string());

    let fst_trace = search_start(&bt);
    let snd_trace = search_next(fst_trace.clone(), &Status::Success);
    let trd_trace = search_next(fst_trace.clone(), &Status::Failure);

    assert_eq!(fst_trace, vec![root.clone()]);
    assert_eq!(snd_trace, Vec::<Node>::new());
    assert_eq!(trd_trace, Vec::<Node>::new());
}

#[test]
fn test_search_start_empty_selector_yields_no_trace() {
    // an internal node without children has no first leaf; such trees are
    // rejected before execution
    let root = Node::Sequence(vec![]);
    let bt = BT::new().test_root(root).name("test_tree".to_string());
    assert_eq!(search_start(&bt), Vec::<Node>::new());
}

#[test]
fn test_search_start_ends_at_leaf() {
    // the first descent always stops at an action or condition, however
    // deep the nesting
    let leaf = Node::Condition("deep".to_string());
    let root = Node::Fallback(vec![Node::Sequence(vec![Node::Fallback(vec![
        leaf.clone(),
        Node::Action("other".to_string()),
    ])])]);
    let bt = BT::new().test_root(root).name("test_tree".to_string());
    let trace = search_start(&bt);
    assert_eq!(trace.last(), Some(&leaf));
}

#[test]
fn test_search_next_moves_off_the_leaf() {
    // forward progress: a nonempty next trace ends at a different leaf
    let a = Node::Action("a".to_string());
    let b = Node::Action("b".to_string());
    let root = Node::Sequence(vec![a.clone(), b.clone()]);
    let bt = BT::new().test_root(root).name("test_tree".to_string());
    let start = search_start(&bt);
    let next = search_next(start.clone(), &Status::Success);
    assert!(!next.is_empty());
    assert_ne!(next.last(), start.last());
}
