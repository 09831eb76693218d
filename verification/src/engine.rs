//! The decision cores of the two engines.
//!
//! Both engines run the same reactive loop: start the current leaf, wait on
//! its channel and on the channels of every watched condition, and react to
//! whichever fires first. The waiting is asynchronous and lives outside this
//! crate; everything the loop decides — which leaf runs next, which watched
//! conditions to stop, when the tree is finished and with what status — is
//! computed here and verified. `FlatMapEngine` looks the next leaf up in the
//! precomputed map; `FlatDynamicEngine` recomputes traversal each step, and
//! pairs each watched condition with the trace ending at it, so a flip
//! resumes as if the condition had just reported the new status. On the
//! leaves both can reach — the current leaf and every watched condition —
//! the two lookups agree (`lemma_engines_agree`).

use vstd::prelude::*;

use crate::bt::{BT, Ready};
use crate::converter::{
    BehaviorTreeMap, convert_bt, last_leaf, reachable_leaf, reachable_in,
    step_leaf, terminal,
};
use crate::message::ParentMessage;
use crate::node::{
    Node, NodeView, clone_node_list, is_leaf, lemma_node_list_view,
    lemma_node_list_view_push, lemma_node_view_ctor, node_list_view,
    unique_leaf_ids, well_formed,
};
use crate::status::{Status, status_of_bool};
use crate::converter::lemma_step_leaf_any_trace;
use crate::traversal::{
    lemma_search_start_is_leaf, search_next, search_start, spec_search_next,
    spec_search_start,
};

verus! {

/// What a message of the current leaf means to the engine: a terminal
/// status ends the leaf, `Running` and `Idle` are ignored, poison and an
/// unexpected kill count as failure.
pub open spec fn parent_outcome(msg: ParentMessage) -> Option<bool> {
    match msg {
        ParentMessage::Status(s) => match s {
            Status::Success => Some(true),
            Status::Failure => Some(false),
            Status::Running => None,
            Status::Idle => None,
        },
        ParentMessage::Poison(_) => Some(false),
        ParentMessage::Killed => Some(false),
    }
}

/// Turns a message of the current leaf into its outcome, if it has one.
pub fn process_parent_message(msg: &ParentMessage) -> (r: Option<bool>)
    ensures
        r == parent_outcome(*msg),
{
    match msg {
        ParentMessage::Status(status) => match status {
            Status::Success => Some(true),
            Status::Failure => Some(false),
            Status::Running => None,
            Status::Idle => None,
        },
        ParentMessage::Poison(_) => Some(false),
        ParentMessage::Killed => Some(false),
    }
}

/// What a lookup in the static map yields: an absent key and a `None` entry
/// both mean the tree finishes.
pub open spec fn spec_lookup(
    m: Map<(NodeView, Status), Option<NodeView>>,
    l: NodeView,
    s: Status,
) -> Option<NodeView> {
    if m.contains_key((l, s)) {
        m[(l, s)]
    } else {
        None
    }
}

/// The map meets the converter's contract for this root: its keys are the
/// reachable leaves with either terminal status, and each entry is the next
/// leaf traversal yields there.
pub open spec fn map_matches(
    m: Map<(NodeView, Status), Option<NodeView>>,
    root: NodeView,
) -> bool {
    &&& forall|l: NodeView, s: Status|
        #![trigger m.contains_key((l, s))]
        m.contains_key((l, s)) <==> (reachable_leaf(root, l) && terminal(s))
    &&& forall|l: NodeView, s: Status|
        #![trigger m[(l, s)]]
        m.contains_key((l, s)) ==> m[(l, s)] == step_leaf(root, l, s)
}

/// The engine that drives the tree from the precomputed map.
pub struct FlatMapEngine {
    pub current_node: Node,
    pub map: BehaviorTreeMap,
    pub active_conditions: Vec<Node>,
}

impl FlatMapEngine {
    /// An engine at the first leaf of the tree, watching nothing yet.
    pub fn new(tree: &BT<Ready>) -> (e: Self)
        requires
            well_formed(tree.root@),
            unique_leaf_ids(tree.root@),
        ensures
            map_matches(e.map@, tree.root@),
            e.current_node@ == spec_search_start(tree.root@).last(),
            reachable_leaf(tree.root@, e.current_node@),
            is_leaf(e.current_node@),
            e.active_conditions@.len() == 0,
    {
        proof {
            lemma_search_start_is_leaf(tree.root@);
        }
        let start_vec = search_start(tree);
        proof {
            lemma_node_list_view(start_vec@);
        }
        let current_node = start_vec[start_vec.len() - 1].clone();
        let map = convert_bt(tree);
        proof {
            assert(current_node@ == node_list_view(start_vec@)[start_vec@.len()
                - 1]);
            assert(reachable_in(tree.root@, current_node@, 0));
        }
        FlatMapEngine { current_node, map, active_conditions: Vec::new() }
    }

    /// The next leaf after `node` reports `status`; `None` ends the tree.
    pub fn lookup_next(&self, node: &Node, status: bool) -> (r: Option<Node>)
        ensures
            crate::traversal::opt_node_view(r) == spec_lookup(
                self.map@,
                node@,
                status_of_bool(status),
            ),
    {
        let key = (node.clone(), Status::from(status));
        match self.map.get(&key) {
            Some(entry) => entry,
            None => None,
        }
    }

    /// The current leaf finished with `status`: move to the next leaf, or
    /// report the tree finished. A finished condition stays watched.
    pub fn handle_current_node_finished(&mut self, status: bool) -> (res: Option<
        bool,
    >)
        ensures
            ({
                let nxt = spec_lookup(
                    old(self).map@,
                    old(self).current_node@,
                    status_of_bool(status),
                );
                &&& final(self).map@ == old(self).map@
                &&& match nxt {
                    None => {
                        &&& res == Some(status)
                        &&& final(self).current_node == old(self).current_node
                        &&& final(self).active_conditions@ == old(
                            self,
                        ).active_conditions@
                    },
                    Some(n) => {
                        &&& res is None
                        &&& final(self).current_node@ == n
                        &&& node_list_view(final(self).active_conditions@)
                            == if old(self).current_node@ is Condition {
                            node_list_view(old(self).active_conditions@).push(
                                old(self).current_node@,
                            )
                        } else {
                            node_list_view(old(self).active_conditions@)
                        }
                    },
                }
            }),
    {
        let cur = self.current_node.clone();
        let next = self.lookup_next(&cur, status);
        proof {
            lemma_node_view_ctor(self.current_node);
        }
        match next {
            None => Some(status),
            Some(n) => {
                if matches!(self.current_node, Node::Condition(_)) {
                    let ghost pv = self.active_conditions@;
                    self.active_conditions.push(self.current_node.clone());
                    proof {
                        lemma_node_list_view_push(
                            pv,
                            self.active_conditions@.last(),
                        );
                    }
                }
                self.current_node = n;
                None
            },
        }
    }

    /// The watched condition at `index` flipped to `status`: every deeper
    /// condition stops being watched (the caller stops those processes and
    /// the current leaf), and traversal resumes from the condition.
    pub fn handle_condition_trigger(
        &mut self,
        node: &Node,
        status: bool,
        index: usize,
    ) -> (out: (Option<bool>, Vec<Node>))
        requires
            index < old(self).active_conditions@.len(),
        ensures
            ({
                let nxt = spec_lookup(
                    old(self).map@,
                    node@,
                    status_of_bool(status),
                );
                &&& final(self).map@ == old(self).map@
                &&& final(self).active_conditions@ == old(
                    self,
                ).active_conditions@.subrange(0, index + 1)
                &&& out.1@ == old(self).active_conditions@.subrange(
                    index + 1,
                    old(self).active_conditions@.len() as int,
                )
                &&& match nxt {
                    None => out.0 == Some(status) && final(self).current_node
                        == old(self).current_node,
                    Some(n) => out.0 is None && final(self).current_node@ == n,
                }
            }),
    {
        // binding the length tells the verifier the index arithmetic fits
        let _watched = self.active_conditions.len();
        let to_stop = self.active_conditions.split_off(index + 1);
        let next = self.lookup_next(node, status);
        match next {
            None => (Some(status), to_stop),
            Some(n) => {
                self.current_node = n;
                (None, to_stop)
            },
        }
    }
}

/// The engine that recomputes traversal each step instead of using a map.
pub struct FlatDynamicEngine {
    pub current_node: Node,
    pub current_trace: Vec<Node>,
    pub active_conditions: Vec<(Node, Vec<Node>)>,
}

impl FlatDynamicEngine {
    /// An engine at the first leaf of the tree, watching nothing yet.
    pub fn new(tree: &BT<Ready>) -> (e: Self)
        requires
            well_formed(tree.root@),
        ensures
            node_list_view(e.current_trace@) == spec_search_start(tree.root@),
            e.current_node@ == spec_search_start(tree.root@).last(),
            e.active_conditions@.len() == 0,
    {
        proof {
            lemma_search_start_is_leaf(tree.root@);
        }
        let current_trace = search_start(tree);
        proof {
            lemma_node_list_view(current_trace@);
        }
        let current_node = current_trace[current_trace.len() - 1].clone();
        proof {
            assert(current_node@ == node_list_view(current_trace@)[
                current_trace@.len() - 1]);
        }
        FlatDynamicEngine {
            current_node,
            current_trace,
            active_conditions: Vec::new(),
        }
    }

    /// The trace of the next leaf after the current one reports `status`.
    pub fn lookup_next(&self, status: bool) -> (r: Vec<Node>)
        ensures
            node_list_view(r@) == spec_search_next(
                node_list_view(self.current_trace@),
                status_of_bool(status),
            ),
    {
        search_next(
            clone_node_list(&self.current_trace),
            &Status::from(status),
        )
    }

    /// The current leaf finished with `status`: recompute the trace, move
    /// to its leaf or report the tree finished. A finished condition stays
    /// watched, paired with the trace ending at it, so that a later flip
    /// resumes traversal as if the condition had just reported the new
    /// status.
    pub fn handle_current_node_finished(&mut self, status: bool) -> (res: Option<
        bool,
    >)
        ensures
            ({
                let nxt = spec_search_next(
                    node_list_view(old(self).current_trace@),
                    status_of_bool(status),
                );
                &&& node_list_view(final(self).current_trace@) == nxt
                &&& if nxt.len() == 0 {
                    &&& res == Some(status)
                    &&& final(self).active_conditions@ == old(
                        self,
                    ).active_conditions@
                    &&& final(self).current_node == old(self).current_node
                } else {
                    &&& res is None
                    &&& final(self).current_node@ == nxt.last()
                    &&& if old(self).current_node@ is Condition {
                        &&& final(self).active_conditions@.len() == old(
                            self,
                        ).active_conditions@.len() + 1
                        &&& forall|i: int|
                            0 <= i < old(self).active_conditions@.len()
                                ==> #[trigger] final(self).active_conditions@[i]
                                == old(self).active_conditions@[i]
                        &&& final(self).active_conditions@.last().0@ == old(
                            self,
                        ).current_node@
                        &&& node_list_view(
                            final(self).active_conditions@.last().1@,
                        ) == node_list_view(old(self).current_trace@)
                    } else {
                        final(self).active_conditions@ == old(
                            self,
                        ).active_conditions@
                    }
                }
            }),
    {
        let next_trace = self.lookup_next(status);
        proof {
            lemma_node_list_view(next_trace@);
            lemma_node_view_ctor(self.current_node);
        }
        if next_trace.len() == 0 {
            self.current_trace = next_trace;
            Some(status)
        } else {
            if matches!(self.current_node, Node::Condition(_)) {
                // the finished condition's own trace, not the next leaf's:
                // a flip resumes from the condition
                self.active_conditions.push(
                    (
                        self.current_node.clone(),
                        clone_node_list(&self.current_trace),
                    ),
                );
                proof {
                    lemma_node_list_view(
                        self.active_conditions@.last().1@,
                    );
                    assert(node_list_view(self.active_conditions@.last().1@)
                        =~= node_list_view(self.current_trace@));
                }
            }
            self.current_trace = next_trace;
            let next_node = self.current_trace[self.current_trace.len()
                - 1].clone();
            proof {
                assert(next_node@ == node_list_view(self.current_trace@)[
                    self.current_trace@.len() - 1]);
            }
            self.current_node = next_node;
            None
        }
    }

    /// The watched condition at `index` flipped to `status`: every deeper
    /// condition stops being watched (the caller stops those processes and
    /// the current leaf), and traversal resumes from the stored trace,
    /// which ends at the condition itself.
    pub fn handle_condition_trigger(&mut self, status: bool, index: usize) -> (out: (
        Option<bool>,
        Vec<(Node, Vec<Node>)>,
    ))
        requires
            index < old(self).active_conditions@.len(),
        ensures
            ({
                let nxt = spec_search_next(
                    node_list_view(old(self).active_conditions@[index as int].1@),
                    status_of_bool(status),
                );
                &&& final(self).active_conditions@ == old(
                    self,
                ).active_conditions@.subrange(0, index + 1)
                &&& out.1@ == old(self).active_conditions@.subrange(
                    index + 1,
                    old(self).active_conditions@.len() as int,
                )
                &&& node_list_view(final(self).current_trace@) == nxt
                &&& if nxt.len() == 0 {
                    out.0 == Some(status) && final(self).current_node == old(
                        self,
                    ).current_node
                } else {
                    out.0 is None && final(self).current_node@ == nxt.last()
                }
            }),
    {
        // binding the length tells the verifier the index arithmetic fits
        let _watched = self.active_conditions.len();
        let to_stop = self.active_conditions.split_off(index + 1);
        let cond_trace = clone_node_list(&self.active_conditions[index].1);
        let next_trace = search_next(cond_trace, &Status::from(status));
        proof {
            lemma_node_list_view(next_trace@);
        }
        self.current_trace = next_trace;
        if self.current_trace.len() == 0 {
            (Some(status), to_stop)
        } else {
            let next_node = self.current_trace[self.current_trace.len()
                - 1].clone();
            proof {
                assert(next_node@ == node_list_view(self.current_trace@)[
                    self.current_trace@.len() - 1]);
            }
            self.current_node = next_node;
            (None, to_stop)
        }
    }
}

/// On a reachable leaf and a terminal status, the static engine's map
/// lookup and the dynamic engine's recomputed traversal yield the same next
/// leaf: both engines take the same transitions on deterministic trees.
pub proof fn lemma_engines_agree(
    root: NodeView,
    m: Map<(NodeView, Status), Option<NodeView>>,
    tr: Seq<NodeView>,
    status: Status,
)
    requires
        well_formed(root),
        unique_leaf_ids(root),
        map_matches(m, root),
        crate::traversal::is_trace(root, tr),
        is_leaf(tr.last()),
        reachable_leaf(root, tr.last()),
        terminal(status),
    ensures
        spec_lookup(m, tr.last(), status) == last_leaf(
            spec_search_next(tr, status),
        ),
{
    lemma_step_leaf_any_trace(root, tr, status);
    assert(m.contains_key((tr.last(), status)));
}

} // verus!
