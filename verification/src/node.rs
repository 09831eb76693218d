//! The immutable tree model.
//!
//! A tree is a `Node`: a leaf (`Action` or `Condition`, each carrying the id
//! of its process) or an internal `Sequence` or `Fallback` node over an
//! ordered list of children. The mathematical shape of a node is its
//! `NodeView`, with ids as character sequences and children as sequences;
//! every contract in this crate speaks of nodes through that view.

use vstd::prelude::*;

verus! {

/// The mathematical shape of a node.
#[verifier::ext_equal]
pub enum NodeView {
    Action(Seq<char>),
    Condition(Seq<char>),
    Sequence(Seq<NodeView>),
    Fallback(Seq<NodeView>),
}

/// A leaf is an action or a condition.
pub open spec fn is_leaf(n: NodeView) -> bool {
    n is Action || n is Condition
}

/// The children of an internal node; a leaf has none.
pub open spec fn children_of(n: NodeView) -> Seq<NodeView> {
    match n {
        NodeView::Action(_) => Seq::empty(),
        NodeView::Condition(_) => Seq::empty(),
        NodeView::Sequence(cs) => cs,
        NodeView::Fallback(cs) => cs,
    }
}

/// The id a leaf carries; an internal node has none.
pub open spec fn leaf_id(n: NodeView) -> Seq<char> {
    match n {
        NodeView::Action(id) => id,
        NodeView::Condition(id) => id,
        NodeView::Sequence(_) => Seq::empty(),
        NodeView::Fallback(_) => Seq::empty(),
    }
}

/// A tree is well formed when every internal node has at least one child.
pub open spec fn well_formed(n: NodeView) -> bool
    decreases n,
{
    match n {
        NodeView::Action(_) => true,
        NodeView::Condition(_) => true,
        NodeView::Sequence(cs) => cs.len() > 0 && (forall|i: int|
            0 <= i < cs.len() ==> well_formed(#[trigger] cs[i])),
        NodeView::Fallback(cs) => cs.len() > 0 && (forall|i: int|
            0 <= i < cs.len() ==> well_formed(#[trigger] cs[i])),
    }
}

/// All leaves of a tree, in declaration order.
pub open spec fn leaves(n: NodeView) -> Seq<NodeView>
    decreases n, 1int,
{
    match n {
        NodeView::Action(_) => seq![n],
        NodeView::Condition(_) => seq![n],
        NodeView::Sequence(cs) => leaves_of_list(cs),
        NodeView::Fallback(cs) => leaves_of_list(cs),
    }
}

/// The leaves of a list of sibling subtrees, in order.
pub open spec fn leaves_of_list(cs: Seq<NodeView>) -> Seq<NodeView>
    decreases cs, 0int,
{
    if cs.len() == 0 {
        Seq::empty()
    } else {
        leaves(cs[0]) + leaves_of_list(cs.subrange(1, cs.len() as int))
    }
}

/// No two positions of the list hold leaves with the same id.
pub open spec fn distinct_ids(s: Seq<NodeView>) -> bool {
    forall|i: int, j: int| 0 <= i < j < s.len() ==> leaf_id(s[i]) != leaf_id(s[j])
}

/// No two leaves of the tree carry the same id. Since a leaf is nothing but
/// its kind and its id, and ids of the two kinds never repeat, distinct
/// positions then hold distinct leaf values.
pub open spec fn unique_leaf_ids(n: NodeView) -> bool {
    distinct_ids(leaves(n))
}

/// `c` stands among the children of `p`.
pub open spec fn is_child(p: NodeView, c: NodeView) -> bool {
    exists|j: int| 0 <= j < children_of(p).len() && children_of(p)[j] == c
}

/// A leaf of one subtree of the list is a leaf of the whole list.
pub proof fn lemma_leaves_of_list_contains(cs: Seq<NodeView>, j: int, x: NodeView)
    requires
        0 <= j < cs.len(),
        leaves(cs[j]).contains(x),
    ensures
        leaves_of_list(cs).contains(x),
    decreases j,
{
    let tail = cs.subrange(1, cs.len() as int);
    if j == 0 {
        let i = choose|i: int| 0 <= i < leaves(cs[0]).len() && leaves(cs[0])[i] == x;
        assert(leaves_of_list(cs)[i] == x);
    } else {
        assert(tail[j - 1] == cs[j]);
        lemma_leaves_of_list_contains(tail, j - 1, x);
        let i = choose|i: int|
            0 <= i < leaves_of_list(tail).len() && leaves_of_list(tail)[i] == x;
        assert(leaves_of_list(cs)[leaves(cs[0]).len() + i] == x);
    }
}

/// Distinct ids over a concatenation split into both parts and across them.
pub proof fn lemma_distinct_ids_split(a: Seq<NodeView>, b: Seq<NodeView>)
    requires
        distinct_ids(a + b),
    ensures
        distinct_ids(a),
        distinct_ids(b),
        forall|x: NodeView, y: NodeView|
            a.contains(x) && b.contains(y) ==> leaf_id(x) != leaf_id(y),
{
    assert forall|i: int, j: int| 0 <= i < j < a.len() implies leaf_id(a[i])
        != leaf_id(a[j]) by {
        assert((a + b)[i] == a[i]);
        assert((a + b)[j] == a[j]);
    }
    assert forall|i: int, j: int| 0 <= i < j < b.len() implies leaf_id(b[i])
        != leaf_id(b[j]) by {
        assert((a + b)[a.len() + i] == b[i]);
        assert((a + b)[a.len() + j] == b[j]);
    }
    assert forall|x: NodeView, y: NodeView|
        a.contains(x) && b.contains(y) implies leaf_id(x) != leaf_id(y) by {
        let i = choose|i: int| 0 <= i < a.len() && a[i] == x;
        let j = choose|j: int| 0 <= j < b.len() && b[j] == y;
        assert((a + b)[i] == x);
        assert((a + b)[a.len() + j] == y);
    }
}

/// Distinct leaf ids over a list of subtrees hold within each subtree.
pub proof fn lemma_list_member_distinct(cs: Seq<NodeView>, j: int)
    requires
        distinct_ids(leaves_of_list(cs)),
        0 <= j < cs.len(),
    ensures
        distinct_ids(leaves(cs[j])),
    decreases j,
{
    let tail = cs.subrange(1, cs.len() as int);
    lemma_distinct_ids_split(leaves(cs[0]), leaves_of_list(tail));
    if j == 0 {
    } else {
        assert(tail[j - 1] == cs[j]);
        lemma_list_member_distinct(tail, j - 1);
    }
}

/// Leaves of two distinct subtrees of a list never share an id.
pub proof fn lemma_siblings_distinct(
    cs: Seq<NodeView>,
    i: int,
    j: int,
    x: NodeView,
    y: NodeView,
)
    requires
        distinct_ids(leaves_of_list(cs)),
        0 <= i < j < cs.len(),
        leaves(cs[i]).contains(x),
        leaves(cs[j]).contains(y),
    ensures
        leaf_id(x) != leaf_id(y),
    decreases i,
{
    let tail = cs.subrange(1, cs.len() as int);
    lemma_distinct_ids_split(leaves(cs[0]), leaves_of_list(tail));
    assert(tail[j - 1] == cs[j]);
    if i == 0 {
        lemma_leaves_of_list_contains(tail, j - 1, y);
    } else {
        assert(tail[i - 1] == cs[i]);
        lemma_siblings_distinct(tail, i - 1, j - 1, x, y);
    }
}

/// A child of a well-formed node is well formed.
pub proof fn lemma_child_wf(p: NodeView, c: NodeView)
    requires
        is_child(p, c),
        well_formed(p),
    ensures
        well_formed(c),
{
    let j = choose|j: int|
        0 <= j < children_of(p).len() && children_of(p)[j] == c;
}

/// A leaf of a child subtree is a leaf of its parent.
pub proof fn lemma_child_leaves(p: NodeView, c: NodeView)
    requires
        is_child(p, c),
    ensures
        forall|x: NodeView| leaves(c).contains(x) ==> leaves(p).contains(x),
{
    let j = choose|j: int|
        0 <= j < children_of(p).len() && children_of(p)[j] == c;
    assert forall|x: NodeView| leaves(c).contains(x) implies leaves(p).contains(
        x,
    ) by {
        lemma_leaves_of_list_contains(children_of(p), j, x);
    }
}

/// Distinct leaf ids of a node hold within each of its children.
pub proof fn lemma_child_distinct(p: NodeView, c: NodeView)
    requires
        is_child(p, c),
        distinct_ids(leaves(p)),
    ensures
        distinct_ids(leaves(c)),
{
    let j = choose|j: int|
        0 <= j < children_of(p).len() && children_of(p)[j] == c;
    lemma_list_member_distinct(children_of(p), j);
}

/// A node of the tree, as built and executed.
#[derive(Debug, PartialEq, Eq, Hash)]
pub enum Node {
    Action(String),
    Condition(String),
    Sequence(Vec<Node>),
    Fallback(Vec<Node>),
}

/// The shape of a node, ids and children included.
pub open spec fn node_view(n: Node) -> NodeView
    decreases n, 1int,
{
    match n {
        Node::Action(id) => NodeView::Action(id@),
        Node::Condition(id) => NodeView::Condition(id@),
        Node::Sequence(cs) => NodeView::Sequence(node_list_view(cs@)),
        Node::Fallback(cs) => NodeView::Fallback(node_list_view(cs@)),
    }
}

/// The shapes of a list of nodes, in order.
pub open spec fn node_list_view(cs: Seq<Node>) -> Seq<NodeView>
    decreases cs, 0int,
{
    if cs.len() == 0 {
        Seq::empty()
    } else {
        seq![node_view(cs[0])] + node_list_view(cs.subrange(1, cs.len() as int))
    }
}

/// `node_list_view` is the elementwise view.
pub proof fn lemma_node_list_view(cs: Seq<Node>)
    ensures
        node_list_view(cs).len() == cs.len(),
        forall|i: int| 0 <= i < cs.len() ==> #[trigger] node_list_view(cs)[i]
            == node_view(cs[i]),
    decreases cs.len(),
{
    if cs.len() > 0 {
        lemma_node_list_view(cs.subrange(1, cs.len() as int));
        assert forall|i: int| 0 <= i < cs.len() implies #[trigger] node_list_view(
            cs,
        )[i] == node_view(cs[i]) by {
            if i > 0 {
                assert(cs.subrange(1, cs.len() as int)[i - 1] == cs[i]);
            }
        }
    }
}

/// Viewing a list commutes with appending a node.
pub proof fn lemma_node_list_view_push(tr: Seq<Node>, n: Node)
    ensures
        node_list_view(tr.push(n)) == node_list_view(tr).push(node_view(n)),
{
    lemma_node_list_view(tr);
    lemma_node_list_view(tr.push(n));
    assert forall|i: int| 0 <= i < tr.len() + 1 implies #[trigger] node_list_view(
        tr.push(n),
    )[i] == node_list_view(tr).push(node_view(n))[i] by {
        if i < tr.len() {
            assert(tr.push(n)[i] == tr[i]);
        } else {
            assert(tr.push(n)[i] == n);
        }
    }
    assert(node_list_view(tr.push(n)) =~= node_list_view(tr).push(node_view(n)));
}

/// Viewing a list commutes with dropping its last node.
pub proof fn lemma_node_list_view_drop_last(tr: Seq<Node>)
    requires
        tr.len() > 0,
    ensures
        node_list_view(tr.drop_last()) == node_list_view(tr).drop_last(),
        node_view(tr.last()) == node_list_view(tr).last(),
{
    lemma_node_list_view(tr);
    lemma_node_list_view(tr.drop_last());
    assert forall|i: int| 0 <= i < tr.len() - 1 implies #[trigger] node_list_view(
        tr.drop_last(),
    )[i] == node_list_view(tr).drop_last()[i] by {
        assert(tr.drop_last()[i] == tr[i]);
    }
    assert(node_list_view(tr.drop_last()) =~= node_list_view(tr).drop_last());
}

/// A node and its view are built by corresponding constructors.
pub proof fn lemma_node_view_ctor(n: Node)
    ensures
        node_view(n) is Action <==> n is Action,
        node_view(n) is Condition <==> n is Condition,
        node_view(n) is Sequence <==> n is Sequence,
        node_view(n) is Fallback <==> n is Fallback,
{
    match n {
        Node::Action(_) => {},
        Node::Condition(_) => {},
        Node::Sequence(_) => {},
        Node::Fallback(_) => {},
    }
}

impl View for Node {
    type V = NodeView;

    open spec fn view(&self) -> NodeView {
        node_view(*self)
    }
}

/// The four kinds of node.
#[derive(Debug, Clone, Copy, PartialEq, Eq, Structural)]
pub enum NodeType {
    Action,
    Condition,
    Sequence,
    Fallback,
}

impl Clone for Node {
    /// A deep copy with the same shape.
    fn clone(&self) -> (res: Node)
        ensures
            res@ == self@,
        decreases self,
    {
        match self {
            Node::Action(id) => Node::Action(id.clone()),
            Node::Condition(id) => Node::Condition(id.clone()),
            Node::Sequence(cs) => Node::Sequence(clone_node_list(cs)),
            Node::Fallback(cs) => Node::Fallback(clone_node_list(cs)),
        }
    }
}

/// A deep copy of a list of nodes, elementwise.
pub fn clone_node_list(cs: &Vec<Node>) -> (res: Vec<Node>)
    ensures
        node_list_view(res@) == node_list_view(cs@),
    decreases cs,
{
    let mut out: Vec<Node> = Vec::new();
    let mut i: usize = 0;
    while i < cs.len()
        invariant
            0 <= i <= cs@.len(),
            out@.len() == i,
            forall|k: int| 0 <= k < i ==> #[trigger] out@[k]@ == cs@[k]@,
        decreases cs@.len() - i,
    {
        out.push(cs[i].clone());
        i = i + 1;
    }
    proof {
        lemma_node_list_view(cs@);
        lemma_node_list_view(out@);
        assert forall|k: int| 0 <= k < cs@.len() implies node_list_view(out@)[k]
            == node_list_view(cs@)[k] by {
            assert(out@[k]@ == cs@[k]@);
        }
        assert(node_list_view(out@) =~= node_list_view(cs@));
    }
    out
}

impl Node {
    /// The id of a leaf; an internal node has none.
    pub fn get_id(&self) -> (r: Option<String>)
        ensures
            match r {
                Some(id) => is_leaf(self@) && id@ == leaf_id(self@),
                None => !is_leaf(self@),
            },
    {
        match self {
            Node::Action(id) => Some(id.clone()),
            Node::Condition(id) => Some(id.clone()),
            Node::Sequence(_) => None,
            Node::Fallback(_) => None,
        }
    }

    /// The kind of this node.
    pub fn node_type(&self) -> (t: NodeType)
        ensures
            t == (match self@ {
                NodeView::Action(_) => NodeType::Action,
                NodeView::Condition(_) => NodeType::Condition,
                NodeView::Sequence(_) => NodeType::Sequence,
                NodeView::Fallback(_) => NodeType::Fallback,
            }),
    {
        match self {
            Node::Action(_) => NodeType::Action,
            Node::Condition(_) => NodeType::Condition,
            Node::Sequence(_) => NodeType::Sequence,
            Node::Fallback(_) => NodeType::Fallback,
        }
    }
}

/// Extending a list by one subtree extends its leaves by that subtree's.
pub proof fn lemma_leaves_of_list_snoc(cs: Seq<NodeView>, i: int)
    requires
        0 <= i < cs.len(),
    ensures
        leaves_of_list(cs.take(i + 1)) == leaves_of_list(cs.take(i)) + leaves(
            cs[i],
        ),
    decreases i,
{
    let a = cs.take(i + 1);
    let b = cs.take(i);
    if i == 0 {
        assert(a.subrange(1, a.len() as int) =~= Seq::<NodeView>::empty());
        assert(a[0] == cs[0]);
        assert(leaves_of_list(a.subrange(1, a.len() as int))
            =~= Seq::<NodeView>::empty());
        assert(leaves_of_list(a) =~= leaves(cs[0]));
        assert(leaves_of_list(b) + leaves(cs[0]) =~= leaves(cs[0]));
    } else {
        let cs2 = cs.subrange(1, cs.len() as int);
        lemma_leaves_of_list_snoc(cs2, i - 1);
        assert(a.subrange(1, a.len() as int) =~= cs2.take(i));
        assert(b.subrange(1, b.len() as int) =~= cs2.take(i - 1));
        assert(a[0] == cs[0]);
        assert(b[0] == cs[0]);
        assert(cs2[i - 1] == cs[i]);
        assert(leaves_of_list(a) == leaves(cs[0]) + leaves_of_list(cs2.take(i)));
        assert(leaves_of_list(b) == leaves(cs[0]) + leaves_of_list(
            cs2.take(i - 1),
        ));
        assert(leaves(cs[0]) + (leaves_of_list(cs2.take(i - 1)) + leaves(cs[i]))
            =~= (leaves(cs[0]) + leaves_of_list(cs2.take(i - 1))) + leaves(
            cs[i],
        ));
    }
}

/// Whether every internal node of the tree has at least one child.
#[verifier::loop_isolation(false)]
pub fn check_well_formed(node: &Node) -> (r: bool)
    ensures
        r == well_formed(node@),
    decreases node,
{
    match node {
        Node::Action(_) => true,
        Node::Condition(_) => true,
        Node::Sequence(cs) | Node::Fallback(cs) => {
            proof {
                lemma_node_list_view(cs@);
            }
            let ghost vcs = node_list_view(cs@);
            if cs.len() == 0 {
                return false;
            }
            let mut i: usize = 0;
            while i < cs.len()
                invariant
                    0 < cs@.len(),
                    0 <= i <= cs@.len(),
                    vcs == node_list_view(cs@),
                    vcs.len() == cs@.len(),
                    forall|k: int| 0 <= k < cs@.len() ==> #[trigger] vcs[k]
                        == cs@[k]@,
                    forall|k: int| 0 <= k < i ==> well_formed(#[trigger] vcs[k]),
                decreases cs@.len() - i,
            {
                if !check_well_formed(&cs[i]) {
                    proof {
                        assert(!well_formed(vcs[i as int]));
                    }
                    return false;
                }
                i = i + 1;
            }
            true
        },
    }
}

/// Appends every leaf of the tree to `out`, in declaration order.
#[verifier::loop_isolation(false)]
fn push_leaves(node: &Node, out: &mut Vec<Node>)
    ensures
        node_list_view(final(out)@) == node_list_view(old(out)@) + leaves(
            node@,
        ),
    decreases node,
{
    let ghost before = out@;
    match node {
        Node::Action(_) | Node::Condition(_) => {
            out.push(node.clone());
            proof {
                lemma_node_list_view_push(before, out@.last());
                assert(node_list_view(out@) =~= node_list_view(before) + leaves(
                    node@,
                ));
            }
        },
        Node::Sequence(cs) | Node::Fallback(cs) => {
            proof {
                lemma_node_list_view(cs@);
            }
            let ghost vcs = node_list_view(cs@);
            let mut i: usize = 0;
            proof {
                assert(vcs.take(0) =~= Seq::<NodeView>::empty());
                assert(node_list_view(before) + leaves_of_list(vcs.take(0))
                    =~= node_list_view(before));
            }
            while i < cs.len()
                invariant
                    0 <= i <= cs@.len(),
                    vcs == node_list_view(cs@),
                    vcs.len() == cs@.len(),
                    forall|k: int| 0 <= k < cs@.len() ==> #[trigger] vcs[k]
                        == cs@[k]@,
                    node_list_view(out@) == node_list_view(before)
                        + leaves_of_list(vcs.take(i as int)),
                decreases cs@.len() - i,
            {
                push_leaves(&cs[i], out);
                proof {
                    lemma_leaves_of_list_snoc(vcs, i as int);
                    assert((node_list_view(before) + leaves_of_list(
                        vcs.take(i as int),
                    )) + leaves(vcs[i as int]) =~= node_list_view(before)
                        + leaves_of_list(vcs.take(i as int + 1)));
                }
                i = i + 1;
            }
            proof {
                assert(vcs.take(vcs.len() as int) =~= vcs);
            }
        },
    }
}

/// The id of a leaf, the empty string for an internal node.
fn leaf_id_of(node: &Node) -> (r: String)
    ensures
        r@ == leaf_id(node@),
{
    match node {
        Node::Action(id) => id.clone(),
        Node::Condition(id) => id.clone(),
        Node::Sequence(_) => String::new(),
        Node::Fallback(_) => String::new(),
    }
}

/// Whether no two leaves of the tree carry the same id.
#[verifier::loop_isolation(false)]
pub fn check_unique_leaf_ids(node: &Node) -> (r: bool)
    ensures
        r == unique_leaf_ids(node@),
{
    let mut out: Vec<Node> = Vec::new();
    push_leaves(node, &mut out);
    let ghost lv = leaves(node@);
    proof {
        lemma_node_list_view(out@);
        assert(node_list_view(out@) =~= lv);
    }
    let mut i: usize = 0;
    while i < out.len()
        invariant
            0 <= i <= out@.len(),
            node_list_view(out@) == lv,
            lv.len() == out@.len(),
            forall|k: int| 0 <= k < out@.len() ==> #[trigger] node_list_view(
                out@,
            )[k] == out@[k]@,
            forall|p: int, q: int|
                0 <= p < q < lv.len() && p < i ==> leaf_id(lv[p]) != leaf_id(
                    lv[q],
                ),
        decreases out@.len() - i,
    {
        let id_i = leaf_id_of(&out[i]);
        let mut j: usize = i + 1;
        while j < out.len()
            invariant
                0 <= i < j <= out@.len(),
                node_list_view(out@) == lv,
                lv.len() == out@.len(),
                forall|k: int| 0 <= k < out@.len() ==> #[trigger] node_list_view(
                    out@,
                )[k] == out@[k]@,
                id_i@ == leaf_id(lv[i as int]),
                forall|q: int| i < q < j ==> leaf_id(lv[i as int]) != leaf_id(
                    lv[q],
                ),
            decreases out@.len() - j,
        {
            let id_j = leaf_id_of(&out[j]);
            if id_i == id_j {
                proof {
                    assert(leaf_id(lv[i as int]) == leaf_id(lv[j as int]));
                }
                return false;
            }
            j = j + 1;
        }
        i = i + 1;
    }
    true
}

/// Whether two nodes have the same shape: same kind, same id, equal children
/// in the same order.
pub fn node_eq(a: &Node, b: &Node) -> (r: bool)
    ensures
        r == (a@ == b@),
    decreases a,
{
    match (a, b) {
        (Node::Action(x), Node::Action(y)) => *x == *y,
        (Node::Condition(x), Node::Condition(y)) => *x == *y,
        (Node::Sequence(xs), Node::Sequence(ys)) => node_list_eq(xs, ys),
        (Node::Fallback(xs), Node::Fallback(ys)) => node_list_eq(xs, ys),
        _ => {
            proof {
                lemma_node_view_ctor(*a);
                lemma_node_view_ctor(*b);
            }
            false
        },
    }
}

/// Whether two lists of nodes are equal elementwise.
fn node_list_eq(xs: &Vec<Node>, ys: &Vec<Node>) -> (r: bool)
    ensures
        r == (node_list_view(xs@) == node_list_view(ys@)),
    decreases xs,
{
    proof {
        lemma_node_list_view(xs@);
        lemma_node_list_view(ys@);
    }
    let ghost vxs = node_list_view(xs@);
    let ghost vys = node_list_view(ys@);
    if xs.len() != ys.len() {
        return false;
    }
    let mut i: usize = 0;
    while i < xs.len()
        invariant
            xs@.len() == ys@.len(),
            0 <= i <= xs@.len(),
            vxs == node_list_view(xs@),
            vys == node_list_view(ys@),
            vxs.len() == xs@.len(),
            vys.len() == ys@.len(),
            forall|k: int| 0 <= k < xs@.len() ==> vxs[k] == node_view(
                #[trigger] xs@[k],
            ),
            forall|k: int| 0 <= k < ys@.len() ==> vys[k] == node_view(
                #[trigger] ys@[k],
            ),
            forall|k: int| 0 <= k < i ==> vxs[k] == vys[k],
        decreases xs@.len() - i,
    {
        if !node_eq(&xs[i], &ys[i]) {
            assert(vxs[i as int] != vys[i as int]);
            return false;
        }
        i = i + 1;
    }
    proof {
        assert(vxs =~= vys);
    }
    true
}

} // verus!
