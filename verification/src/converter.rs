//! The converter: a breadth-first walk of traversal that flattens the tree
//! into a map `(leaf, status) -> next leaf`.
//!
//! The map is total over the leaves reachable from the root, for both
//! terminal statuses; a `None` value means the tree ends with that status
//! at that leaf. On a tree with distinct leaf ids the trace ending at a
//! leaf is unique, so the entry for a leaf agrees with `search_next` on any
//! trace ending there.

use vstd::prelude::*;
use vstd::seq_lib::seq_to_set_is_finite;

use crate::bt::{BT, Ready};
use crate::node::{
    Node, NodeView, children_of, distinct_ids, is_child, is_leaf, leaf_id,
    leaves, leaves_of_list, lemma_node_list_view, node_list_view,
    unique_leaf_ids, well_formed,
};
use crate::status::Status;
use crate::traversal::{
    first_child_index, is_trace, lemma_first_child_index,
    lemma_search_next_is_leaf, lemma_search_start_is_leaf,
    lemma_trace_distinct, opt_node_view, search_next, search_start,
    spec_search_down, spec_search_next, spec_search_start, spec_search_up,
};

verus! {

/// A status on which a leaf hands control back: the two map keys per leaf.
pub open spec fn terminal(s: Status) -> bool {
    s is Success || s is Failure
}

/// The map a list of entries denotes; a later entry overrides an earlier
/// one with the same key.
pub open spec fn entries_map(s: Seq<(Node, Status, Option<Node>)>) -> Map<
    (NodeView, Status),
    Option<NodeView>,
>
    decreases s.len(),
{
    if s.len() == 0 {
        Map::empty()
    } else {
        entries_map(s.drop_last()).insert(
            (s.last().0@, s.last().1),
            opt_node_view(s.last().2),
        )
    }
}

/// The static engine's map `(leaf, status) -> next leaf`, keyed by node
/// shape.
#[derive(Debug, PartialEq, Eq)]
pub struct BehaviorTreeMap {
    entries: Vec<(Node, Status, Option<Node>)>,
}

impl View for BehaviorTreeMap {
    type V = Map<(NodeView, Status), Option<NodeView>>;

    closed spec fn view(&self) -> Map<(NodeView, Status), Option<NodeView>> {
        entries_map(self.entries@)
    }
}

impl BehaviorTreeMap {
    /// The empty map.
    pub fn new() -> (r: Self)
        ensures
            r@ == Map::<(NodeView, Status), Option<NodeView>>::empty(),
    {
        BehaviorTreeMap { entries: Vec::new() }
    }

    /// Adds or overwrites the entry for `(node, status)`.
    pub fn insert(&mut self, node: Node, status: Status, next: Option<Node>)
        ensures
            final(self)@ == old(self)@.insert(
                (node@, status),
                opt_node_view(next),
            ),
    {
        let ghost old_entries = self.entries@;
        self.entries.push((node, status, next));
        proof {
            assert(self.entries@.drop_last() =~= old_entries);
        }
    }

    /// Looks the key up; `None` when the key is absent.
    pub fn get(&self, key: &(Node, Status)) -> (r: Option<Option<Node>>)
        ensures
            match r {
                Some(v) => self@.contains_key((key.0@, key.1)) && opt_node_view(
                    v,
                ) == self@[(key.0@, key.1)],
                None => !self@.contains_key((key.0@, key.1)),
            },
    {
        proof {
            assert(self.entries@.take(self.entries@.len() as int)
                =~= self.entries@);
        }
        get_at(&self.entries, self.entries.len(), key)
    }
}

/// Looks the key up among the first `i` entries, last match winning.
fn get_at(
    entries: &Vec<(Node, Status, Option<Node>)>,
    i: usize,
    key: &(Node, Status),
) -> (r: Option<Option<Node>>)
    requires
        i <= entries@.len(),
    ensures
        match r {
            Some(v) => entries_map(entries@.take(i as int)).contains_key(
                (key.0@, key.1),
            ) && opt_node_view(v) == entries_map(entries@.take(i as int))[
                (key.0@, key.1)
            ],
            None => !entries_map(entries@.take(i as int)).contains_key(
                (key.0@, key.1),
            ),
        },
    decreases i,
{
    if i == 0 {
        proof {
            assert(entries@.take(0) =~= Seq::empty());
        }
        None
    } else {
        proof {
            assert(entries@.take(i as int).drop_last() =~= entries@.take(
                i as int - 1,
            ));
            assert(entries@.take(i as int).last() == entries@[i as int - 1]);
        }
        let e = &entries[i - 1];
        if crate::node::node_eq(&e.0, &key.0) && e.1 == key.1 {
            let v = match &e.2 {
                Some(n) => Some(n.clone()),
                None => None,
            };
            Some(v)
        } else {
            get_at(entries, i - 1, key)
        }
    }
}

/// The leaf of a next-trace, or `None` when the trace is empty.
pub open spec fn last_leaf(r: Seq<NodeView>) -> Option<NodeView> {
    if r.len() == 0 {
        None
    } else {
        Some(r.last())
    }
}

/// The unique path from the root to the given leaf.
pub open spec fn leaf_trace(root: NodeView, leaf: NodeView) -> Seq<NodeView> {
    choose|tr: Seq<NodeView>| is_trace(root, tr) && tr.last() == leaf
}

/// The next leaf after `leaf` finishes with `status`; `None` when the tree
/// finishes. Well defined because the trace ending at a leaf is unique.
pub open spec fn step_leaf(root: NodeView, leaf: NodeView, status: Status) -> Option<
    NodeView,
> {
    last_leaf(spec_search_next(leaf_trace(root, leaf), status))
}

/// A leaf reachable from the first leaf in `k` steps of `step_leaf`.
pub open spec fn reachable_in(root: NodeView, leaf: NodeView, k: nat) -> bool
    decreases k,
{
    if k == 0 {
        spec_search_start(root).len() > 0 && leaf == spec_search_start(
            root,
        ).last()
    } else {
        exists|l2: NodeView, s: Status|
            reachable_in(root, l2, (k - 1) as nat) && terminal(s) && step_leaf(
                root,
                l2,
                s,
            ) == Some(leaf)
    }
}

/// A leaf the engine can ever run.
pub open spec fn reachable_leaf(root: NodeView, leaf: NodeView) -> bool {
    exists|k: nat| reachable_in(root, leaf, k)
}

/// The finished leaf stays among the leaves of every node of its trace.
proof fn lemma_trace_last_in_leaves(tr: Seq<NodeView>, j: int)
    requires
        tr.len() > 0,
        forall|i: int| 1 <= i < tr.len() ==> is_child(tr[i - 1], #[trigger] tr[i]),
        is_leaf(tr.last()),
        0 <= j < tr.len(),
    ensures
        leaves(tr[j]).contains(tr.last()),
    decreases tr.len() - j,
{
    if j == tr.len() - 1 {
        assert(leaves(tr[j])[0] == tr.last());
    } else {
        lemma_trace_last_in_leaves(tr, j + 1);
        crate::node::lemma_child_leaves(tr[j], tr[j + 1]);
    }
}

/// Two traces to the same leaf agree on every shared position.
proof fn lemma_trace_unique_prefix(
    root: NodeView,
    t1: Seq<NodeView>,
    t2: Seq<NodeView>,
    i: int,
)
    requires
        well_formed(root),
        unique_leaf_ids(root),
        is_trace(root, t1),
        is_trace(root, t2),
        is_leaf(t1.last()),
        is_leaf(t2.last()),
        t1.last() == t2.last(),
        0 <= i < t1.len(),
        i < t2.len(),
    ensures
        t1[i] == t2[i],
    decreases i,
{
    if i > 0 {
        lemma_trace_unique_prefix(root, t1, t2, i - 1);
        let p = t1[i - 1];
        assert(is_child(p, t1[i]));
        assert(is_child(p, t2[i]));
        let cs = children_of(p);
        let a = choose|a: int| 0 <= a < cs.len() && cs[a] == t1[i];
        let b = choose|b: int| 0 <= b < cs.len() && cs[b] == t2[i];
        lemma_trace_last_in_leaves(t1, i);
        lemma_trace_last_in_leaves(t2, i);
        lemma_trace_distinct(root, t1);
        assert(distinct_ids(leaves(t1[i - 1])));
        let target = t1.last();
        if a < b {
            crate::node::lemma_siblings_distinct(cs, a, b, target, target);
        } else if b < a {
            crate::node::lemma_siblings_distinct(cs, b, a, target, target);
        }
        assert(a == b);
    }
}

/// On a tree with distinct leaf ids, the trace ending at a leaf is unique.
pub proof fn lemma_trace_unique(root: NodeView, t1: Seq<NodeView>, t2: Seq<NodeView>)
    requires
        well_formed(root),
        unique_leaf_ids(root),
        is_trace(root, t1),
        is_trace(root, t2),
        is_leaf(t1.last()),
        is_leaf(t2.last()),
        t1.last() == t2.last(),
    ensures
        t1 == t2,
{
    if t1.len() < t2.len() {
        lemma_trace_unique_prefix(root, t1, t2, t1.len() - 1);
        assert(t2[t1.len() - 1] == t1.last());
        assert(is_child(t2[t1.len() - 1], t2[t1.len() as int]));
        assert(children_of(t2[t1.len() - 1]).len() == 0);
        assert(false);
    } else if t2.len() < t1.len() {
        lemma_trace_unique_prefix(root, t2, t1, t2.len() - 1);
        assert(t1[t2.len() - 1] == t2.last());
        assert(is_child(t1[t2.len() - 1], t1[t2.len() as int]));
        assert(children_of(t1[t2.len() - 1]).len() == 0);
        assert(false);
    }
    assert forall|i: int| 0 <= i < t1.len() implies t1[i] == t2[i] by {
        lemma_trace_unique_prefix(root, t1, t2, i);
    }
    assert(t1 =~= t2);
}

/// `step_leaf` agrees with `search_next` on any trace ending at the leaf.
pub proof fn lemma_step_leaf_any_trace(
    root: NodeView,
    tr: Seq<NodeView>,
    status: Status,
)
    requires
        well_formed(root),
        unique_leaf_ids(root),
        is_trace(root, tr),
        is_leaf(tr.last()),
    ensures
        step_leaf(root, tr.last(), status) == last_leaf(
            spec_search_next(tr, status),
        ),
{
    let t = leaf_trace(root, tr.last());
    assert(is_trace(root, t) && t.last() == tr.last()) by {
        assert(is_trace(root, tr) && tr.last() == tr.last());
    }
    lemma_trace_unique(root, t, tr);
}

/// Whether some node of the list has the shape of `x`.
fn contains_node(v: &Vec<Node>, x: &Node) -> (r: bool)
    ensures
        r == node_list_view(v@).contains(x@),
{
    proof {
        lemma_node_list_view(v@);
    }
    let ghost vv = node_list_view(v@);
    let mut i: usize = 0;
    while i < v.len()
        invariant
            0 <= i <= v@.len(),
            vv == node_list_view(v@),
            vv.len() == v@.len(),
            forall|k: int| 0 <= k < v@.len() ==> #[trigger] vv[k] == v@[k]@,
            forall|k: int| 0 <= k < i ==> vv[k] != x@,
        decreases v@.len() - i,
    {
        if crate::node::node_eq(&v[i], x) {
            proof {
                assert(vv[i as int] == x@);
            }
            return true;
        }
        i = i + 1;
    }
    false
}

/// A duplicate-free list of members of a sequence is no longer than it.
proof fn lemma_distinct_members_bound(s: Seq<NodeView>, big: Seq<NodeView>)
    requires
        s.no_duplicates(),
        forall|i: int| 0 <= i < s.len() ==> big.contains(#[trigger] s[i]),
    ensures
        s.len() <= big.len(),
{
    broadcast use seq_to_set_is_finite;

    s.unique_seq_to_set();
    big.lemma_cardinality_of_set();
    assert forall|x: NodeView| s.to_set().contains(x) implies big.to_set()
        .contains(x) by {
        let i = choose|i: int| 0 <= i < s.len() && s[i] == x;
        assert(big.contains(s[i]));
    }
    vstd::set_lib::lemma_len_subset(s.to_set(), big.to_set());
}

/// A leaf reachable in some number of steps stands in any list that holds
/// the first leaf and is closed under `step_leaf`.
proof fn lemma_reachable_visited(
    root: NodeView,
    l: NodeView,
    k: nat,
    done: Seq<NodeView>,
)
    requires
        spec_search_start(root).len() > 0 ==> done.contains(
            spec_search_start(root).last(),
        ),
        forall|j: int, s: Status|
            #![trigger step_leaf(root, done[j], s)]
            0 <= j < done.len() && terminal(s) && (step_leaf(root, done[j], s)
                is Some) ==> done.contains(step_leaf(root, done[j], s).unwrap()),
        reachable_in(root, l, k),
    ensures
        done.contains(l),
    decreases k,
{
    if k > 0 {
        let (l2, s) = choose|l2: NodeView, s: Status|
            reachable_in(root, l2, (k - 1) as nat) && terminal(s) && step_leaf(
                root,
                l2,
                s,
            ) == Some(l);
        lemma_reachable_visited(root, l2, (k - 1) as nat, done);
        let j = choose|j: int| 0 <= j < done.len() && done[j] == l2;
        assert(step_leaf(root, done[j], s) == Some(l));
    }
}

/// The views of the leaves at the ends of the queued traces.
spec fn queue_leaves(q: Seq<Vec<Node>>) -> Seq<NodeView> {
    Seq::new(q.len(), |i: int| node_list_view(q[i]@).last())
}

/// Flattens traversal of the tree into a map: for every leaf reachable from
/// the root and either terminal status, the next leaf to run, `None` when
/// the tree finishes there. The walk is breadth first from the first leaf;
/// it terminates because every newly enqueued leaf is a fresh leaf of the
/// tree, of which there are finitely many.
pub fn convert_bt(bt: &BT<Ready>) -> (map: BehaviorTreeMap)
    requires
        well_formed(bt.root@),
        unique_leaf_ids(bt.root@),
    ensures
        forall|l: NodeView, s: Status|
            #![trigger map@.contains_key((l, s))]
            map@.contains_key((l, s)) <==> (reachable_leaf(bt.root@, l)
                && terminal(s)),
        forall|l: NodeView, s: Status|
            #![trigger map@[(l, s)]]
            map@.contains_key((l, s)) ==> map@[(l, s)] == step_leaf(
                bt.root@,
                l,
                s,
            ),
{
    let ghost root = bt.root@;
    let mut map = BehaviorTreeMap::new();
    let mut visited: Vec<Node> = Vec::new();
    let mut queue: Vec<Vec<Node>> = Vec::new();
    let ghost mut done: Seq<NodeView> = Seq::empty();

    proof {
        lemma_search_start_is_leaf(root);
    }
    let ghost start_leaf = spec_search_start(root).last();
    let start_vec = search_start(bt);
    proof {
        lemma_node_list_view(start_vec@);
    }
    let start = start_vec[start_vec.len() - 1].clone();
    proof {
        assert(start@ == node_list_view(start_vec@)[start_vec@.len() - 1]);
        assert(start@ == start_leaf);
    }
    let ghost pv0 = visited@;
    visited.push(start);
    queue.push(start_vec);
    proof {
        crate::node::lemma_node_list_view_push(pv0, visited@.last());
        lemma_node_list_view(visited@);
        assert(node_list_view(visited@) =~= seq![start_leaf]);
        assert(queue_leaves(queue@) =~= seq![start_leaf]);
        assert(node_list_view(visited@) =~= done + queue_leaves(queue@));
        assert(reachable_in(root, start_leaf, 0));
        assert(reachable_leaf(root, start_leaf));
        assert(node_list_view(visited@).contains(start_leaf)) by {
            assert(node_list_view(visited@)[0] == start_leaf);
        }
    }

    while queue.len() > 0
        invariant
            well_formed(root),
            unique_leaf_ids(root),
            root == bt.root@,
            spec_search_start(root).len() > 0,
            start_leaf == spec_search_start(root).last(),
            forall|qi: int|
                #![trigger queue@[qi]]
                0 <= qi < queue@.len() ==> {
                    &&& queue@[qi]@.len() > 0
                    &&& node_list_view(queue@[qi]@).len() == queue@[qi]@.len()
                    &&& is_trace(root, node_list_view(queue@[qi]@))
                    &&& is_leaf(node_list_view(queue@[qi]@).last())
                },
            node_list_view(visited@).no_duplicates(),
            node_list_view(visited@).len() == visited@.len(),
            forall|i: int|
                0 <= i < visited@.len() ==> leaves(root).contains(
                    #[trigger] node_list_view(visited@)[i],
                ),
            forall|i: int|
                0 <= i < visited@.len() ==> reachable_leaf(
                    root,
                    #[trigger] node_list_view(visited@)[i],
                ),
            visited@.len() <= leaves(root).len(),
            node_list_view(visited@) == done + queue_leaves(queue@),
            forall|l: NodeView, s: Status|
                #![trigger map@.contains_key((l, s))]
                map@.contains_key((l, s)) <==> (done.contains(l) && terminal(
                    s,
                )),
            forall|l: NodeView, s: Status|
                #![trigger map@[(l, s)]]
                map@.contains_key((l, s)) ==> map@[(l, s)] == step_leaf(
                    root,
                    l,
                    s,
                ),
            forall|j: int, s: Status|
                #![trigger step_leaf(root, done[j], s)]
                0 <= j < done.len() && terminal(s) && (step_leaf(
                    root,
                    done[j],
                    s,
                ) is Some) ==> node_list_view(visited@).contains(
                    step_leaf(root, done[j], s).unwrap(),
                ),
            node_list_view(visited@).contains(start_leaf),
        decreases leaves(root).len() - visited@.len(), queue@.len(),
    {
        let ghost pre_queue = queue@;
        let ghost pre_done = done;
        let ghost pre_visited = visited@;
        let current = queue.remove(0);
        let ghost ctv = node_list_view(current@);
        let ghost l = ctv.last();
        proof {
            done = done.push(l);
            assert(queue@ =~= pre_queue.subrange(1, pre_queue.len() as int));
            assert(queue_leaves(pre_queue) =~= seq![l] + queue_leaves(queue@));
            assert(node_list_view(visited@) =~= done + queue_leaves(queue@));
            lemma_node_list_view(current@);
            // the popped leaf is a visited leaf, hence reachable
            assert(node_list_view(visited@)[pre_done.len() as int] == l) by {
                assert((pre_done + queue_leaves(pre_queue))[pre_done.len() as int]
                    == queue_leaves(pre_queue)[0]);
            }
            assert(reachable_leaf(root, l));
        }
        let current_node = current[current.len() - 1].clone();
        proof {
            assert(current_node@ == ctv[current@.len() - 1]);
            assert(current_node@ == l);
        }

        let next_vec = search_next(
            crate::node::clone_node_list(&current),
            &Status::Success,
        );
        proof {
            lemma_step_leaf_any_trace(root, ctv, Status::Success);
            lemma_search_next_is_leaf(root, ctv, Status::Success);
            lemma_node_list_view(next_vec@);
        }
        let ghost nv = node_list_view(next_vec@);
        proof {
            assert(nv == spec_search_next(ctv, Status::Success));
            assert(step_leaf(root, l, Status::Success) == last_leaf(nv));
        }
        if next_vec.len() == 0 {
            map.insert(current_node.clone(), Status::Success, None);
        } else {
            let next_leaf = next_vec[next_vec.len() - 1].clone();
            proof {
                assert(next_leaf@ == nv[nv.len() - 1]);
                assert(next_leaf@ == nv.last());
            }
            map.insert(
                current_node.clone(),
                Status::Success,
                Some(next_leaf.clone()),
            );
            if !contains_node(&visited, &next_leaf) {
                proof {
                    let k = choose|k: nat| reachable_in(root, l, k);
                    assert(reachable_in(root, next_leaf@, k + 1));
                    assert(reachable_leaf(root, next_leaf@));
                }
                let ghost pv = visited@;
                visited.push(next_leaf);
                proof {
                    crate::node::lemma_node_list_view_push(pv, visited@.last());
                    lemma_node_list_view(visited@);
                    assert(node_list_view(visited@)[node_list_view(visited@).len()
                        - 1] == next_leaf@);
                    assert(node_list_view(visited@).contains(next_leaf@));
                    assert forall|x: NodeView|
                        node_list_view(pv).contains(x) implies node_list_view(
                        visited@,
                    ).contains(x) by {
                        let ix = choose|ix: int|
                            0 <= ix < node_list_view(pv).len()
                                && node_list_view(pv)[ix] == x;
                        assert(node_list_view(visited@)[ix] == x);
                    }
                    lemma_distinct_members_bound(
                        node_list_view(visited@),
                        leaves(root),
                    );
                }
                let ghost pq = queue@;
                queue.push(next_vec);
                proof {
                    assert(queue_leaves(queue@) =~= queue_leaves(pq).push(
                        nv.last(),
                    ));
                    assert(node_list_view(visited@) =~= done + queue_leaves(
                        queue@,
                    ));
                }
            }
        }
        proof {
            assert(step_leaf(root, l, Status::Success) is Some
                ==> node_list_view(visited@).contains(
                step_leaf(root, l, Status::Success).unwrap(),
            )) by {
                if nv.len() > 0 {
                    assert(node_list_view(visited@).contains(nv.last()));
                }
            }
        }

        let next_vec_f = search_next(
            crate::node::clone_node_list(&current),
            &Status::Failure,
        );
        proof {
            lemma_step_leaf_any_trace(root, ctv, Status::Failure);
            lemma_search_next_is_leaf(root, ctv, Status::Failure);
            lemma_node_list_view(next_vec_f@);
        }
        let ghost nvf = node_list_view(next_vec_f@);
        proof {
            assert(nvf == spec_search_next(ctv, Status::Failure));
            assert(step_leaf(root, l, Status::Failure) == last_leaf(nvf));
        }
        if next_vec_f.len() == 0 {
            map.insert(current_node, Status::Failure, None);
        } else {
            let next_leaf = next_vec_f[next_vec_f.len() - 1].clone();
            proof {
                assert(next_leaf@ == nvf[nvf.len() - 1]);
                assert(next_leaf@ == nvf.last());
            }
            map.insert(current_node, Status::Failure, Some(next_leaf.clone()));
            if !contains_node(&visited, &next_leaf) {
                proof {
                    let k = choose|k: nat| reachable_in(root, l, k);
                    assert(reachable_in(root, next_leaf@, k + 1));
                    assert(reachable_leaf(root, next_leaf@));
                }
                let ghost pv = visited@;
                visited.push(next_leaf);
                proof {
                    crate::node::lemma_node_list_view_push(pv, visited@.last());
                    lemma_node_list_view(visited@);
                    assert(node_list_view(visited@)[node_list_view(visited@).len()
                        - 1] == next_leaf@);
                    assert(node_list_view(visited@).contains(next_leaf@));
                    assert forall|x: NodeView|
                        node_list_view(pv).contains(x) implies node_list_view(
                        visited@,
                    ).contains(x) by {
                        let ix = choose|ix: int|
                            0 <= ix < node_list_view(pv).len()
                                && node_list_view(pv)[ix] == x;
                        assert(node_list_view(visited@)[ix] == x);
                    }
                    lemma_distinct_members_bound(
                        node_list_view(visited@),
                        leaves(root),
                    );
                }
                let ghost pq = queue@;
                queue.push(next_vec_f);
                proof {
                    assert(queue_leaves(queue@) =~= queue_leaves(pq).push(
                        nvf.last(),
                    ));
                    assert(node_list_view(visited@) =~= done + queue_leaves(
                        queue@,
                    ));
                }
            }
        }
        proof {
            assert(step_leaf(root, l, Status::Failure) is Some
                ==> node_list_view(visited@).contains(
                step_leaf(root, l, Status::Failure).unwrap(),
            )) by {
                if nvf.len() > 0 {
                    assert(node_list_view(visited@).contains(nvf.last()));
                }
            }
        }

        proof {
            // the two new map keys carry the stepped-to leaves
            assert forall|l2: NodeView, s: Status|
                #![trigger map@.contains_key((l2, s))]
                map@.contains_key((l2, s)) <==> (done.contains(l2) && terminal(
                    s,
                )) by {
                if l2 == l {
                    assert(done.last() == l);
                    assert(done.contains(l));
                } else {
                    assert(done.contains(l2) <==> pre_done.contains(l2)) by {
                        if pre_done.contains(l2) {
                            let j = choose|j: int|
                                0 <= j < pre_done.len() && pre_done[j] == l2;
                            assert(done[j] == l2);
                        } else if done.contains(l2) {
                            let j = choose|j: int|
                                0 <= j < done.len() && done[j] == l2;
                            assert(pre_done[j] == l2);
                        }
                    }
                }
            }
            // closure for the freshly processed leaf and the old ones
            assert forall|j: int, s: Status|
                #![trigger step_leaf(root, done[j], s)]
                0 <= j < done.len() && terminal(s) && (step_leaf(
                    root,
                    done[j],
                    s,
                ) is Some) implies node_list_view(visited@).contains(
                step_leaf(root, done[j], s).unwrap(),
            ) by {
                if j < pre_done.len() {
                    assert(done[j] == pre_done[j]);
                }
            }
        }
    }

    proof {
        assert(queue_leaves(queue@) =~= Seq::<NodeView>::empty());
        assert(node_list_view(visited@) =~= done);
        assert forall|l: NodeView, s: Status|
            #![trigger map@.contains_key((l, s))]
            map@.contains_key((l, s)) <==> (reachable_leaf(root, l) && terminal(
                s,
            )) by {
            if map@.contains_key((l, s)) {
                let j = choose|j: int| 0 <= j < done.len() && done[j] == l;
                assert(node_list_view(visited@)[j] == l);
                assert(reachable_leaf(root, l));
            } else if reachable_leaf(root, l) && terminal(s) {
                let k = choose|k: nat| reachable_in(root, l, k);
                lemma_reachable_visited(root, l, k, done);
            }
        }
    }
    map
}

/// A list of leaves is its own leaf list.
proof fn lemma_leaves_of_leaf_list(cs: Seq<NodeView>)
    requires
        forall|k: int| 0 <= k < cs.len() ==> is_leaf(#[trigger] cs[k]),
    ensures
        leaves_of_list(cs) == cs,
    decreases cs.len(),
{
    if cs.len() > 0 {
        let tail = cs.subrange(1, cs.len() as int);
        assert forall|k: int| 0 <= k < tail.len() implies is_leaf(
            #[trigger] tail[k],
        ) by {
            assert(tail[k] == cs[k + 1]);
        }
        lemma_leaves_of_leaf_list(tail);
        assert(leaves(cs[0]) =~= seq![cs[0]]);
        assert(leaves_of_list(cs) =~= cs);
    }
}

/// Sequence short-circuit: among the leaves of a sequence, a failing leaf
/// ends the whole tree with failure — no later child is ever reached — and
/// a succeeding leaf hands control to exactly the next child, or finishes
/// the tree at the last one.
pub proof fn lemma_sequence_short_circuit(cs: Seq<NodeView>, i: int)
    requires
        forall|k: int| 0 <= k < cs.len() ==> is_leaf(#[trigger] cs[k]),
        unique_leaf_ids(NodeView::Sequence(cs)),
        0 <= i < cs.len(),
    ensures
        step_leaf(NodeView::Sequence(cs), cs[i], Status::Failure) is None,
        step_leaf(NodeView::Sequence(cs), cs[i], Status::Success) == (
        if i + 1 < cs.len() {
            Some(cs[i + 1])
        } else {
            None
        }),
{
    let root = NodeView::Sequence(cs);
    lemma_selector_of_leaves_steps(root, cs, i);
}

/// Fallback recovery: among the leaves of a fallback, a succeeding leaf
/// ends the whole tree with success — no later child is ever reached — and
/// a failing leaf hands control to exactly the next child, or finishes the
/// tree at the last one.
pub proof fn lemma_fallback_recovery(cs: Seq<NodeView>, i: int)
    requires
        forall|k: int| 0 <= k < cs.len() ==> is_leaf(#[trigger] cs[k]),
        unique_leaf_ids(NodeView::Fallback(cs)),
        0 <= i < cs.len(),
    ensures
        step_leaf(NodeView::Fallback(cs), cs[i], Status::Success) is None,
        step_leaf(NodeView::Fallback(cs), cs[i], Status::Failure) == (
        if i + 1 < cs.len() {
            Some(cs[i + 1])
        } else {
            None
        }),
{
    let root = NodeView::Fallback(cs);
    lemma_selector_of_leaves_steps(root, cs, i);
}

/// The shared argument for both selectors over a list of leaves: the
/// status the selector does not advance past ends the tree, the other
/// status steps to the next sibling.
proof fn lemma_selector_of_leaves_steps(root: NodeView, cs: Seq<NodeView>, i: int)
    requires
        root == NodeView::Sequence(cs) || root == NodeView::Fallback(cs),
        forall|k: int| 0 <= k < cs.len() ==> is_leaf(#[trigger] cs[k]),
        unique_leaf_ids(root),
        0 <= i < cs.len(),
    ensures
        forall|s: Status|
            terminal(s) ==> #[trigger] step_leaf(root, cs[i], s) == (
            if crate::traversal::advances(root, s) && i + 1 < cs.len() {
                Some(cs[i + 1])
            } else {
                None
            }),
{
    assert(well_formed(root)) by {
        assert forall|k: int| 0 <= k < cs.len() implies well_formed(
            #[trigger] cs[k],
        ) by {
            assert(is_leaf(cs[k]));
        }
    }
    lemma_leaves_of_leaf_list(cs);
    assert(leaves(root) == cs);
    assert(distinct_ids(cs));
    let tr = seq![root, cs[i]];
    assert(is_trace(root, tr)) by {
        assert(children_of(root)[i] == cs[i]);
        assert(is_child(root, cs[i]));
        assert(tr[0] == root);
        assert forall|k: int| 1 <= k < tr.len() implies is_child(
            tr[k - 1],
            #[trigger] tr[k],
        ) by {
            assert(tr[1] == cs[i]);
        }
    }
    assert(tr.last() == cs[i]);
    assert(is_leaf(tr.last()));
    assert(tr.drop_last() =~= seq![root]);
    assert(seq![root].drop_last() =~= Seq::<NodeView>::empty());
    // the first occurrence of cs[i] among the children is i itself, since
    // the leaves carry distinct ids
    lemma_first_child_index(cs, cs[i]);
    let fci = first_child_index(cs, cs[i]);
    assert(fci == i) by {
        if fci == -1 {
            assert(cs[i] != cs[i]);
        } else if fci < i {
            assert(leaf_id(cs[fci]) == leaf_id(cs[i]));
        } else if fci > i {
            assert(cs[i] != cs[i]);
        }
    }
    assert forall|s: Status| terminal(s) implies #[trigger] step_leaf(
        root,
        cs[i],
        s,
    ) == (if crate::traversal::advances(root, s) && i + 1 < cs.len() {
        Some(cs[i + 1])
    } else {
        None
    }) by {
        lemma_step_leaf_any_trace(root, tr, s);
        assert(spec_search_next(tr, s) == spec_search_up(tr, s, None));
        assert(spec_search_up(tr, s, None) == spec_search_up(
            seq![root],
            s,
            Some(cs[i]),
        ));
        if crate::traversal::advances(root, s) {
            if i + 1 < cs.len() {
                assert(spec_search_up(seq![root], s, Some(cs[i]))
                    == spec_search_down(
                    Seq::<NodeView>::empty().push(root),
                    cs[i + 1],
                ));
                assert(Seq::<NodeView>::empty().push(root) =~= seq![root]);
                assert(is_leaf(cs[i + 1]));
                assert(spec_search_down(seq![root], cs[i + 1]) == seq![
                    root,
                ].push(cs[i + 1]));
                assert(seq![root].push(cs[i + 1]).last() == cs[i + 1]);
            } else {
                assert(spec_search_up(seq![root], s, Some(cs[i]))
                    == spec_search_up(
                    Seq::<NodeView>::empty(),
                    s,
                    Some(root),
                ));
                assert(spec_search_up(Seq::<NodeView>::empty(), s, Some(root))
                    .len() == 0);
            }
        } else {
            assert(spec_search_up(seq![root], s, Some(cs[i]))
                == spec_search_up(Seq::<NodeView>::empty(), s, Some(root)));
            assert(spec_search_up(Seq::<NodeView>::empty(), s, Some(root))
                .len() == 0);
        }
    }
}

/// A flip to failure of the condition guarding a sequence ends the tree
/// with failure: the action running beside it is cut short, and nothing
/// after the condition is ever reached.
pub proof fn lemma_guard_flip_ends_sequence(c: NodeView, w: NodeView)
    requires
        is_leaf(c),
        is_leaf(w),
        unique_leaf_ids(NodeView::Sequence(seq![c, w])),
    ensures
        step_leaf(NodeView::Sequence(seq![c, w]), c, Status::Failure) is None,
{
    let cs = seq![c, w];
    assert forall|k: int| 0 <= k < cs.len() implies is_leaf(
        #[trigger] cs[k],
    ) by {
        if k == 0 {
            assert(cs[0] == c);
        } else {
            assert(cs[1] == w);
        }
    }
    lemma_sequence_short_circuit(cs, 0);
    assert(cs[0] == c);
}

/// A flip to failure of the condition guarding a fallback's first arm
/// resumes at the fallback's next child: the recovery action follows,
/// while the arm the condition guarded is abandoned.
pub proof fn lemma_guard_flip_recovers_through_fallback(
    c: NodeView,
    w: NodeView,
    a: NodeView,
)
    requires
        is_leaf(c),
        is_leaf(w),
        is_leaf(a),
        unique_leaf_ids(
            NodeView::Fallback(seq![NodeView::Sequence(seq![c, w]), a]),
        ),
    ensures
        step_leaf(
            NodeView::Fallback(seq![NodeView::Sequence(seq![c, w]), a]),
            c,
            Status::Failure,
        ) == Some(a),
{
    let inner = NodeView::Sequence(seq![c, w]);
    let root = NodeView::Fallback(seq![inner, a]);
    assert(well_formed(inner)) by {
        let kids = seq![c, w];
        assert(well_formed(c));
        assert(well_formed(w));
        assert forall|k: int| 0 <= k < kids.len() implies well_formed(
            #[trigger] kids[k],
        ) by {
            if k == 0 {
                assert(kids[k] == c);
            } else {
                assert(kids[k] == w);
            }
        }
    }
    assert(well_formed(root)) by {
        let arms = seq![inner, a];
        assert(well_formed(a));
        assert forall|k: int| 0 <= k < arms.len() implies well_formed(
            #[trigger] arms[k],
        ) by {
            if k == 0 {
                assert(arms[k] == inner);
            } else {
                assert(arms[k] == a);
            }
        }
    }
    let tr = seq![root, inner, c];
    assert(is_trace(root, tr)) by {
        assert(tr[0] == root);
        assert(children_of(root)[0] == inner);
        assert(is_child(root, inner));
        assert(children_of(inner)[0] == c);
        assert(is_child(inner, c));
        assert forall|k: int| 1 <= k < tr.len() implies is_child(
            tr[k - 1],
            #[trigger] tr[k],
        ) by {
            if k == 1 {
                assert(tr[0] == root && tr[1] == inner);
            } else {
                assert(tr[1] == inner && tr[2] == c);
            }
        }
    }
    assert(tr.last() == c);
    lemma_step_leaf_any_trace(root, tr, Status::Failure);
    // walk the trace up by hand: the leaf and the sequence propagate the
    // failure, the fallback advances to its second child
    assert(tr.drop_last() =~= seq![root, inner]);
    assert(seq![root, inner].drop_last() =~= seq![root]);
    assert(seq![root].drop_last() =~= Seq::<NodeView>::empty());
    assert(spec_search_next(tr, Status::Failure) == spec_search_up(
        tr,
        Status::Failure,
        None,
    ));
    assert(spec_search_up(tr, Status::Failure, None) == spec_search_up(
        seq![root, inner],
        Status::Failure,
        Some(c),
    ));
    assert(!crate::traversal::advances(inner, Status::Failure));
    assert(spec_search_up(seq![root, inner], Status::Failure, Some(c))
        == spec_search_up(seq![root], Status::Failure, Some(inner)));
    assert(first_child_index(children_of(root), inner) == 0) by {
        assert(children_of(root)[0] == inner);
    }
    assert(spec_search_up(seq![root], Status::Failure, Some(inner))
        == spec_search_down(
        Seq::<NodeView>::empty().push(root),
        children_of(root)[1],
    ));
    assert(Seq::<NodeView>::empty().push(root) =~= seq![root]);
    assert(children_of(root)[1] == a);
    assert(spec_search_down(seq![root], a) == seq![root].push(a));
    assert(seq![root].push(a).last() == a);
    assert(seq![root].push(a).len() == 2);
}

/// The map is deterministic: any two maps with the converter's contract are
/// one map.
pub proof fn lemma_converter_deterministic(
    root: NodeView,
    m1: Map<(NodeView, Status), Option<NodeView>>,
    m2: Map<(NodeView, Status), Option<NodeView>>,
)
    requires
        forall|l: NodeView, s: Status|
            #![trigger m1.contains_key((l, s))]
            m1.contains_key((l, s)) <==> (reachable_leaf(root, l) && terminal(
                s,
            )),
        forall|l: NodeView, s: Status|
            #![trigger m1[(l, s)]]
            m1.contains_key((l, s)) ==> m1[(l, s)] == step_leaf(root, l, s),
        forall|l: NodeView, s: Status|
            #![trigger m2.contains_key((l, s))]
            m2.contains_key((l, s)) <==> (reachable_leaf(root, l) && terminal(
                s,
            )),
        forall|l: NodeView, s: Status|
            #![trigger m2[(l, s)]]
            m2.contains_key((l, s)) ==> m2[(l, s)] == step_leaf(root, l, s),
    ensures
        m1 == m2,
{
    assert forall|k: (NodeView, Status)| m1.dom().contains(k)
        <==> m2.dom().contains(k) by {
        let (l, s) = k;
        assert(m1.contains_key((l, s)) <==> m2.contains_key((l, s)));
    }
    assert forall|k: (NodeView, Status)|
        m1.dom().contains(k) && m2.dom().contains(k) implies m1[k] == m2[k] by {
        let (l, s) = k;
        assert(m1[(l, s)] == step_leaf(root, l, s));
        assert(m2[(l, s)] == step_leaf(root, l, s));
    }
    assert(m1 =~= m2);
}

} // verus!
