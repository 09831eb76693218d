//! Pure traversal over the immutable tree.
//!
//! `search_start` descends from the root through first children to the first
//! leaf. `search_next` walks a trace upward from its leaf: a `Sequence` whose
//! child succeeded, or a `Fallback` whose child failed, advances to the child
//! after it and descends there; everything else propagates the status to its
//! parent. An empty result means the tree finished with that status.
//!
//! Each executable function mirrors a spec function over node views exactly;
//! the laws about traces are proved in separate lemmas below.

use vstd::prelude::*;

use crate::bt::{BT, Ready};
use crate::node::{
    Node, NodeView, children_of, distinct_ids, is_child, is_leaf, leaf_id,
    leaves, lemma_node_list_view, lemma_node_list_view_drop_last,
    lemma_node_list_view_push, lemma_node_view_ctor, node_list_view, node_view,
    unique_leaf_ids, well_formed,
};
use crate::status::Status;

verus! {

/// An internal node advances past a finished child exactly when it is a
/// sequence whose child succeeded or a fallback whose child failed.
pub open spec fn advances(n: NodeView, status: Status) -> bool {
    (n is Sequence && status is Success) || (n is Fallback && status is Failure)
}

/// The trace that descending from `n` through first children appends to
/// `trace`. An internal node without children yields the empty trace.
pub open spec fn spec_search_down(trace: Seq<NodeView>, n: NodeView) -> Seq<
    NodeView,
>
    decreases n,
{
    match n {
        NodeView::Action(_) => trace.push(n),
        NodeView::Condition(_) => trace.push(n),
        NodeView::Sequence(cs) => if cs.len() == 0 {
            Seq::empty()
        } else {
            spec_search_down(trace.push(n), cs[0])
        },
        NodeView::Fallback(cs) => if cs.len() == 0 {
            Seq::empty()
        } else {
            spec_search_down(trace.push(n), cs[0])
        },
    }
}

/// The first position of `p` among `cs`, or `-1` when `p` is no child.
pub open spec fn first_child_index(cs: Seq<NodeView>, p: NodeView) -> int
    decreases cs.len(),
{
    if cs.len() == 0 {
        -1
    } else if cs[0] == p {
        0
    } else {
        let r = first_child_index(cs.subrange(1, cs.len() as int), p);
        if r < 0 {
            -1
        } else {
            r + 1
        }
    }
}

/// `first_child_index` finds the first occurrence, and `-1` means none.
pub proof fn lemma_first_child_index(cs: Seq<NodeView>, p: NodeView)
    ensures
        first_child_index(cs, p) == -1 ==> forall|k: int|
            0 <= k < cs.len() ==> cs[k] != p,
        first_child_index(cs, p) != -1 ==> {
            &&& 0 <= first_child_index(cs, p) < cs.len()
            &&& cs[first_child_index(cs, p)] == p
            &&& forall|k: int| 0 <= k < first_child_index(cs, p) ==> cs[k] != p
        },
    decreases cs.len(),
{
    if cs.len() > 0 && cs[0] != p {
        let tail = cs.subrange(1, cs.len() as int);
        lemma_first_child_index(tail, p);
        assert forall|k: int| 1 <= k < cs.len() implies cs[k] == tail[k - 1] by {}
    }
}

/// The view of an optional node.
pub open spec fn opt_node_view(p: Option<Node>) -> Option<NodeView> {
    match p {
        Some(n) => Some(node_view(n)),
        None => None,
    }
}

/// The trace that walking up from the end of `trace` produces, `prev` being
/// the child already popped below the current end.
pub open spec fn spec_search_up(
    trace: Seq<NodeView>,
    status: Status,
    prev: Option<NodeView>,
) -> Seq<NodeView>
    decreases trace.len(),
{
    if trace.len() == 0 {
        trace
    } else {
        let n = trace.last();
        let rest = trace.drop_last();
        if advances(n, status) && prev is Some {
            let cs = children_of(n);
            let i = first_child_index(cs, prev.unwrap());
            if i != -1 && i + 1 < cs.len() {
                spec_search_down(rest.push(n), cs[i + 1])
            } else {
                spec_search_up(rest, status, Some(n))
            }
        } else {
            spec_search_up(rest, status, Some(n))
        }
    }
}

/// The trace from the root down to the first leaf.
pub open spec fn spec_search_start(root: NodeView) -> Seq<NodeView> {
    spec_search_down(Seq::empty(), root)
}

/// The trace of the next leaf to run after the leaf of `trace` finished with
/// `status`; empty when the tree finished.
pub open spec fn spec_search_next(trace: Seq<NodeView>, status: Status) -> Seq<
    NodeView,
> {
    spec_search_up(trace, status, None)
}

/// Descend from the root of the tree to its first leaf.
pub fn search_start(tree: &BT<Ready>) -> (res: Vec<Node>)
    ensures
        node_list_view(res@) == spec_search_start(tree.root@),
{
    search_down(&tree.root, Vec::new())
}

/// Descend from `node` through first children, appending to `trace`.
pub fn search_down(node: &Node, trace: Vec<Node>) -> (res: Vec<Node>)
    ensures
        node_list_view(res@) == spec_search_down(node_list_view(trace@), node@),
    decreases node,
{
    let ghost tv = node_list_view(trace@);
    match node {
        Node::Action(_) | Node::Condition(_) => {
            let mut trace = trace;
            let ghost before = trace@;
            trace.push(node.clone());
            proof {
                lemma_node_list_view_push(before, trace@.last());
            }
            trace
        },
        Node::Sequence(cs) | Node::Fallback(cs) => {
            if cs.len() == 0 {
                let res: Vec<Node> = Vec::new();
                res
            } else {
                let mut trace = trace;
                let ghost before = trace@;
                trace.push(node.clone());
                proof {
                    lemma_node_list_view_push(before, trace@.last());
                    lemma_node_list_view(cs@);
                }
                search_down(&cs[0], trace)
            }
        },
    }
}

/// The first position of `p` among `cs`, found by shape equality.
fn position_of(cs: &Vec<Node>, p: &Node) -> (r: Option<usize>)
    ensures
        match r {
            Some(i) => i as int == first_child_index(node_list_view(cs@), p@)
                && i < cs@.len(),
            None => first_child_index(node_list_view(cs@), p@) == -1,
        },
{
    proof {
        lemma_node_list_view(cs@);
        lemma_first_child_index(node_list_view(cs@), p@);
    }
    let ghost vcs = node_list_view(cs@);
    let mut i: usize = 0;
    while i < cs.len()
        invariant
            0 <= i <= cs@.len(),
            vcs == node_list_view(cs@),
            vcs.len() == cs@.len(),
            forall|k: int| 0 <= k < cs@.len() ==> #[trigger] vcs[k] == cs@[k]@,
            forall|k: int| 0 <= k < i ==> vcs[k] != p@,
            first_child_index(vcs, p@) == -1 ==> forall|k: int|
                0 <= k < vcs.len() ==> vcs[k] != p@,
            first_child_index(vcs, p@) != -1 ==> {
                &&& 0 <= first_child_index(vcs, p@) < vcs.len()
                &&& vcs[first_child_index(vcs, p@)] == p@
                &&& forall|k: int|
                    0 <= k < first_child_index(vcs, p@) ==> vcs[k] != p@
            },
        decreases cs@.len() - i,
    {
        if crate::node::node_eq(&cs[i], p) {
            proof {
                assert(vcs[i as int] == cs@[i as int]@);
                assert(vcs[i as int] == p@);
                assert(first_child_index(vcs, p@) == i as int);
            }
            return Some(i);
        }
        i = i + 1;
    }
    None
}

/// The next leaf's trace after the leaf of `trace` reported `result`.
pub fn search_next(trace: Vec<Node>, result: &Status) -> (res: Vec<Node>)
    ensures
        node_list_view(res@) == spec_search_next(node_list_view(trace@), *result),
{
    search_up(trace, result, None)
}

/// Walk the trace upward, `previous_node` being the child already popped.
pub fn search_up(trace: Vec<Node>, result: &Status, previous_node: Option<Node>) -> (res:
    Vec<Node>)
    ensures
        node_list_view(res@) == spec_search_up(
            node_list_view(trace@),
            *result,
            opt_node_view(previous_node),
        ),
    decreases trace@.len(),
{
    let ghost tv = node_list_view(trace@);
    let ghost t0 = trace@;
    let mut trace = trace;
    let node = match trace.pop() {
        Some(n) => n,
        None => {
            return trace;
        },
    };
    proof {
        lemma_node_list_view_drop_last(t0);
        lemma_node_view_ctor(node);
    }
    match (&node, result, &previous_node) {
        (Node::Sequence(cs), Status::Success, Some(p))
        | (Node::Fallback(cs), Status::Failure, Some(p)) => {
            proof {
                lemma_node_list_view(cs@);
            }
            if let Some(i) = position_of(cs, p) {
                if i < cs.len() - 1 {
                    let mut trace = trace;
                    let ghost before = trace@;
                    trace.push(node.clone());
                    proof {
                        lemma_node_list_view_push(before, trace@.last());
                    }
                    return search_down(&cs[i + 1], trace);
                }
            }
            search_up(trace, result, Some(node))
        },
        _ => search_up(trace, result, Some(node)),
    }
}

/// A path from the root: it starts at the root and every later node is a
/// child of the one before it.
pub open spec fn is_trace(root: NodeView, tr: Seq<NodeView>) -> bool {
    &&& tr.len() > 0
    &&& tr[0] == root
    &&& forall|i: int| 1 <= i < tr.len() ==> is_child(tr[i - 1], #[trigger] tr[i])
}

/// What descending from a well-formed node appends to a trace: the node
/// itself, then a chain of first children, ending at a leaf of the node.
pub proof fn lemma_search_down_props(trace: Seq<NodeView>, n: NodeView)
    requires
        well_formed(n),
    ensures
        ({
            let r = spec_search_down(trace, n);
            &&& r.len() > trace.len()
            &&& forall|i: int| 0 <= i < trace.len() ==> r[i] == trace[i]
            &&& r[trace.len() as int] == n
            &&& is_leaf(r.last())
            &&& leaves(n).contains(r.last())
            &&& forall|i: int|
                trace.len() < i < r.len() ==> is_child(r[i - 1], #[trigger] r[i])
            &&& forall|i: int|
                trace.len() <= i < r.len() ==> well_formed(#[trigger] r[i])
        }),
    decreases n,
{
    let r = spec_search_down(trace, n);
    match n {
        NodeView::Action(_) => {
            assert(leaves(n)[0] == n);
        },
        NodeView::Condition(_) => {
            assert(leaves(n)[0] == n);
        },
        NodeView::Sequence(cs) => {
            lemma_search_down_props(trace.push(n), cs[0]);
            crate::node::lemma_leaves_of_list_contains(cs, 0, r.last());
            assert(children_of(n)[0] == cs[0]);
            assert(is_child(n, cs[0]));
        },
        NodeView::Fallback(cs) => {
            lemma_search_down_props(trace.push(n), cs[0]);
            crate::node::lemma_leaves_of_list_contains(cs, 0, r.last());
            assert(children_of(n)[0] == cs[0]);
            assert(is_child(n, cs[0]));
        },
    }
}

/// Every node on a trace of a well-formed root is well formed.
pub proof fn lemma_trace_wf(root: NodeView, tr: Seq<NodeView>)
    requires
        well_formed(root),
        is_trace(root, tr),
    ensures
        forall|i: int| 0 <= i < tr.len() ==> well_formed(#[trigger] tr[i]),
    decreases tr.len(),
{
    if tr.len() > 1 {
        let rest = tr.drop_last();
        assert forall|i: int| 1 <= i < rest.len() implies is_child(
            rest[i - 1],
            #[trigger] rest[i],
        ) by {
            assert(rest[i] == tr[i]);
            assert(rest[i - 1] == tr[i - 1]);
        }
        lemma_trace_wf(root, rest);
        assert(well_formed(tr[tr.len() - 2])) by {
            assert(rest[tr.len() - 2] == tr[tr.len() - 2]);
        }
        assert(is_child(tr[tr.len() - 2], tr[tr.len() - 1]));
        assert(tr.last() == tr[tr.len() - 1]);
        crate::node::lemma_child_wf(tr[tr.len() - 2], tr.last());
        assert forall|i: int| 0 <= i < tr.len() implies well_formed(
            #[trigger] tr[i],
        ) by {
            if i < tr.len() - 1 {
                assert(rest[i] == tr[i]);
            }
        }
    }
}

/// On a trace of a root with distinct leaf ids, every node has distinct leaf
/// ids, and its leaves are leaves of the root.
pub proof fn lemma_trace_distinct(root: NodeView, tr: Seq<NodeView>)
    requires
        distinct_ids(leaves(root)),
        is_trace(root, tr),
    ensures
        forall|i: int|
            0 <= i < tr.len() ==> distinct_ids(leaves(#[trigger] tr[i])),
        forall|i: int, x: NodeView|
            #![trigger leaves(tr[i]).contains(x)]
            0 <= i < tr.len() && leaves(tr[i]).contains(x) ==> leaves(
                root,
            ).contains(x),
    decreases tr.len(),
{
    if tr.len() > 1 {
        let rest = tr.drop_last();
        assert forall|i: int| 1 <= i < rest.len() implies is_child(
            rest[i - 1],
            #[trigger] rest[i],
        ) by {
            assert(rest[i] == tr[i]);
            assert(rest[i - 1] == tr[i - 1]);
        }
        lemma_trace_distinct(root, rest);
        let p = tr[tr.len() - 2];
        let c = tr.last();
        assert(rest[tr.len() - 2] == p);
        crate::node::lemma_child_distinct(p, c);
        crate::node::lemma_child_leaves(p, c);
        assert forall|i: int| 0 <= i < tr.len() implies distinct_ids(
            leaves(#[trigger] tr[i]),
        ) by {
            if i < tr.len() - 1 {
                assert(rest[i] == tr[i]);
            }
        }
        assert forall|i: int, x: NodeView|
            #![trigger leaves(tr[i]).contains(x)]
            0 <= i < tr.len() && leaves(tr[i]).contains(x) implies leaves(
            root,
        ).contains(x) by {
            if i < tr.len() - 1 {
                assert(rest[i] == tr[i]);
                assert(leaves(rest[i]).contains(x));
            } else {
                assert(leaves(p).contains(x));
                assert(leaves(rest[tr.len() - 2]).contains(x));
            }
        }
    }
}

/// What walking up preserves: a nonempty result is again a path from the
/// root, made of well-formed nodes, ending at a leaf that belongs to some
/// node of the walked trace.
pub proof fn lemma_search_up_props(
    tr: Seq<NodeView>,
    status: Status,
    prev: Option<NodeView>,
    root: NodeView,
)
    requires
        tr.len() > 0 ==> tr[0] == root,
        forall|i: int| 1 <= i < tr.len() ==> is_child(tr[i - 1], #[trigger] tr[i]),
        forall|i: int| 0 <= i < tr.len() ==> well_formed(#[trigger] tr[i]),
    ensures
        ({
            let r = spec_search_up(tr, status, prev);
            r.len() > 0 ==> {
                &&& r[0] == root
                &&& forall|i: int|
                    1 <= i < r.len() ==> is_child(r[i - 1], #[trigger] r[i])
                &&& forall|i: int|
                    0 <= i < r.len() ==> well_formed(#[trigger] r[i])
                &&& is_leaf(r.last())
                &&& exists|k: int|
                    0 <= k < tr.len() && leaves(#[trigger] tr[k]).contains(
                        r.last(),
                    )
            }
        }),
    decreases tr.len(),
{
    if tr.len() == 0 {
        return ;
    }
    let r = spec_search_up(tr, status, prev);
    let n = tr.last();
    let rest = tr.drop_last();
    assert forall|i: int| 1 <= i < rest.len() implies is_child(
        rest[i - 1],
        #[trigger] rest[i],
    ) by {
        assert(rest[i] == tr[i]);
        assert(rest[i - 1] == tr[i - 1]);
    }
    assert forall|i: int| 0 <= i < rest.len() implies well_formed(
        #[trigger] rest[i],
    ) by {
        assert(rest[i] == tr[i]);
    }
    let cs = children_of(n);
    let fci = if prev is Some {
        first_child_index(cs, prev.unwrap())
    } else {
        -1
    };
    if advances(n, status) && prev is Some && fci != -1 && fci + 1 < cs.len() {
        lemma_first_child_index(cs, prev.unwrap());
        let m = cs[fci + 1];
        assert(is_child(n, m));
        crate::node::lemma_child_wf(n, m);
        lemma_search_down_props(rest.push(n), m);
        assert(r == spec_search_down(rest.push(n), m));
        crate::node::lemma_child_leaves(n, m);
        assert(leaves(n).contains(r.last()));
        assert(leaves(tr[tr.len() - 1]).contains(r.last()));
        assert forall|i: int| 1 <= i < r.len() implies is_child(
            r[i - 1],
            #[trigger] r[i],
        ) by {
            if i < rest.len() {
                assert(r[i] == rest.push(n)[i]);
                assert(r[i - 1] == rest.push(n)[i - 1]);
                assert(r[i] == tr[i]);
                assert(r[i - 1] == tr[i - 1]);
            } else if i == rest.len() {
                assert(r[i] == rest.push(n)[i]);
                assert(r[i] == n);
                if i >= 1 {
                    assert(r[i - 1] == rest.push(n)[i - 1]);
                    assert(r[i - 1] == tr[i - 1]);
                    assert(is_child(tr[i - 1], tr[i]));
                }
            } else if i == rest.len() + 1 {
                assert(r[i - 1] == rest.push(n)[rest.len() as int]);
                assert(r[i - 1] == n);
                assert(r[i] == m);
            }
        }
        assert forall|i: int| 0 <= i < r.len() implies well_formed(
            #[trigger] r[i],
        ) by {
            if i < rest.len() {
                assert(r[i] == rest.push(n)[i]);
                assert(r[i] == tr[i]);
            } else if i == rest.len() {
                assert(r[i] == rest.push(n)[i]);
                assert(r[i] == n);
                assert(well_formed(tr[tr.len() - 1]));
            }
        }
        if r.len() > 0 {
            assert(r[0] == root) by {
                if rest.len() > 0 {
                    assert(r[0] == rest.push(n)[0]);
                    assert(r[0] == tr[0]);
                } else {
                    assert(r[0] == rest.push(n)[0]);
                    assert(r[0] == n);
                    assert(tr.len() == 1);
                    assert(n == tr[0]);
                }
            }
        }
    } else {
        lemma_search_up_props(rest, status, Some(n), root);
        assert(r == spec_search_up(rest, status, Some(n)));
        if r.len() > 0 {
            let k = choose|k: int|
                0 <= k < rest.len() && leaves(#[trigger] rest[k]).contains(
                    r.last(),
                );
            assert(rest[k] == tr[k]);
            assert(leaves(tr[k]).contains(r.last()));
        }
    }
}

/// Walking up never returns to the leaf it left, when the tree's leaf ids
/// are distinct: the result descends into a different child subtree.
pub proof fn lemma_search_up_off_target(
    tr: Seq<NodeView>,
    status: Status,
    prev: Option<NodeView>,
    target: NodeView,
)
    requires
        forall|i: int| 1 <= i < tr.len() ==> is_child(tr[i - 1], #[trigger] tr[i]),
        forall|i: int| 0 <= i < tr.len() ==> well_formed(#[trigger] tr[i]),
        forall|i: int|
            0 <= i < tr.len() ==> distinct_ids(leaves(#[trigger] tr[i])),
        match prev {
            Some(p) => tr.len() > 0 ==> is_child(tr.last(), p) && leaves(
                p,
            ).contains(target),
            None => tr.len() > 0 ==> tr.last() == target && is_leaf(target),
        },
    ensures
        ({
            let r = spec_search_up(tr, status, prev);
            r.len() > 0 ==> leaf_id(r.last()) != leaf_id(target) && r.last()
                != target
        }),
    decreases tr.len(),
{
    if tr.len() == 0 {
        return ;
    }
    let r = spec_search_up(tr, status, prev);
    let n = tr.last();
    let rest = tr.drop_last();
    assert forall|i: int| 1 <= i < rest.len() implies is_child(
        rest[i - 1],
        #[trigger] rest[i],
    ) by {
        assert(rest[i] == tr[i]);
        assert(rest[i - 1] == tr[i - 1]);
    }
    assert forall|i: int| 0 <= i < rest.len() implies well_formed(
        #[trigger] rest[i],
    ) by {
        assert(rest[i] == tr[i]);
    }
    assert forall|i: int| 0 <= i < rest.len() implies distinct_ids(
        leaves(#[trigger] rest[i]),
    ) by {
        assert(rest[i] == tr[i]);
    }
    assert(well_formed(n)) by {
        assert(well_formed(tr[tr.len() - 1]));
    }
    assert(distinct_ids(leaves(n))) by {
        assert(distinct_ids(leaves(tr[tr.len() - 1])));
    }
    let cs = children_of(n);
    let fci = if prev is Some {
        first_child_index(cs, prev.unwrap())
    } else {
        -1
    };
    if advances(n, status) && prev is Some && fci != -1 && fci + 1 < cs.len() {
        lemma_first_child_index(cs, prev.unwrap());
        let m = cs[fci + 1];
        assert(is_child(n, m));
        crate::node::lemma_child_wf(n, m);
        lemma_search_down_props(rest.push(n), m);
        assert(r == spec_search_down(rest.push(n), m));
        assert(leaves(m).contains(r.last()));
        crate::node::lemma_siblings_distinct(cs, fci, fci + 1, target, r.last());
    } else {
        // Keep walking up: the target stays among the leaves of the node
        // just popped.
        match prev {
            Some(p) => {
                crate::node::lemma_child_leaves(n, p);
                assert(leaves(n).contains(target));
            },
            None => {
                assert(leaves(n) == seq![target]);
                assert(leaves(n)[0] == target);
                assert(leaves(n).contains(target));
            },
        }
        if rest.len() > 0 {
            assert(is_child(rest.last(), n)) by {
                assert(rest.last() == tr[tr.len() - 2]);
                assert(is_child(tr[tr.len() - 2], tr[tr.len() - 1]));
            }
        }
        lemma_search_up_off_target(rest, status, Some(n), target);
    }
}

/// The first trace always ends at a leaf, and is a path from the root.
pub proof fn lemma_search_start_is_leaf(root: NodeView)
    requires
        well_formed(root),
    ensures
        spec_search_start(root).len() > 0,
        is_leaf(spec_search_start(root).last()),
        is_trace(root, spec_search_start(root)),
        leaves(root).contains(spec_search_start(root).last()),
{
    lemma_search_down_props(Seq::empty(), root);
}

/// A nonempty next trace again ends at a leaf of the tree, and is a path
/// from the root.
pub proof fn lemma_search_next_is_leaf(
    root: NodeView,
    tr: Seq<NodeView>,
    status: Status,
)
    requires
        well_formed(root),
        is_trace(root, tr),
    ensures
        ({
            let r = spec_search_next(tr, status);
            r.len() > 0 ==> is_leaf(r.last()) && is_trace(root, r) && leaves(
                root,
            ).contains(r.last())
        }),
{
    lemma_trace_wf(root, tr);
    lemma_search_up_props(tr, status, None, root);
    let r = spec_search_next(tr, status);
    if r.len() > 0 {
        let k = choose|k: int|
            0 <= k < tr.len() && leaves(#[trigger] tr[k]).contains(r.last());
        lemma_subtree_leaves(root, tr, k);
    }
}

/// The leaves of any node on a trace are leaves of the root.
proof fn lemma_subtree_leaves(root: NodeView, tr: Seq<NodeView>, k: int)
    requires
        is_trace(root, tr),
        0 <= k < tr.len(),
    ensures
        forall|x: NodeView|
            leaves(tr[k]).contains(x) ==> leaves(root).contains(x),
    decreases k,
{
    if k > 0 {
        lemma_subtree_leaves(root, tr, k - 1);
        crate::node::lemma_child_leaves(tr[k - 1], tr[k]);
    }
}

/// Forward progress: when the tree's leaf ids are distinct, a nonempty next
/// trace never ends at the leaf it started from.
pub proof fn lemma_search_next_forward_progress(
    root: NodeView,
    tr: Seq<NodeView>,
    status: Status,
)
    requires
        well_formed(root),
        unique_leaf_ids(root),
        is_trace(root, tr),
        is_leaf(tr.last()),
    ensures
        ({
            let r = spec_search_next(tr, status);
            r.len() > 0 ==> r.last() != tr.last()
        }),
{
    lemma_trace_wf(root, tr);
    lemma_trace_distinct(root, tr);
    lemma_search_up_off_target(tr, status, None, tr.last());
}

} // verus!
