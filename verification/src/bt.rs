//! The typestate builder.
//!
//! A `BT<T>` advances through `Init -> Preparing -> Ready -> Done`; a subtree
//! under construction is a `BT<Builder>` and cannot be run. Each transition
//! consumes `self`, so a finished tree cannot be run twice and a tree cannot
//! get a second root. The leaf constructors that spawn processes, and the
//! asynchronous `run`, live outside this crate: they assemble and drive the
//! same `BT` value through the transitions below.

use vstd::prelude::*;

use crate::engine_factory::{EngineFactory, Engines};
use crate::node::{Node, NodeView, node_list_view};

verus! {

/// The bound of each leaf's broadcast channel.
pub const CHANNEL_SIZE: usize = 20;

pub trait State {}

pub trait NotDone {}

/// A tree not yet seeded with defaults.
pub struct Init;

/// A tree with defaults, waiting for its root.
pub struct Preparing;

/// A tree with a root, ready to run.
pub struct Ready;

/// A tree that has run; only its result is left to read.
pub struct Done;

/// A subtree under construction; the argument of `root`.
pub struct Builder;

impl NotDone for Init {

}

impl NotDone for Preparing {

}

impl NotDone for Ready {

}

impl<T: NotDone> State for T {

}

impl State for Done {

}

impl State for Builder {

}

/// A behavior tree in state `T`.
pub struct BT<T: State> {
    pub name: String,
    pub root: Node,
    pub engine_factory: EngineFactory,
    pub result: Option<bool>,
    pub marker: core::marker::PhantomData<T>,
}

impl<T: State> BT<T> {
    fn into_state<S: State>(self) -> (res: BT<S>)
        ensures
            res.name == self.name,
            res.root == self.root,
            res.engine_factory == self.engine_factory,
            res.result == self.result,
    {
        BT::<S> {
            name: self.name,
            root: self.root,
            engine_factory: self.engine_factory,
            result: self.result,
            marker: core::marker::PhantomData,
        }
    }
}

impl BT<Init> {
    /// A fresh tree with defaults: a placeholder root, the dynamic engine,
    /// no result.
    pub fn new() -> (res: BT<Preparing>)
        ensures
            res.name@ == "Unnamed Behavior Tree"@,
            res.root@ == NodeView::Action("Initial action"@),
            res.engine_factory.engine == Engines::Dynamic,
            res.result is None,
    {
        let bt = BT::<Init> {
            name: "Unnamed Behavior Tree".to_string(),
            root: Node::Action("Initial action".to_string()),
            engine_factory: EngineFactory { engine: Engines::Dynamic },
            result: None,
            marker: core::marker::PhantomData,
        };
        bt.into_state::<Preparing>()
    }

    /// A sequence over the given subtrees, in order.
    pub fn seq(children: Vec<BT<Builder>>) -> (res: BT<Builder>)
        ensures
            res.root@ == NodeView::Sequence(
                Seq::new(children@.len(), |i: int| children@[i].root@),
            ),
            res.result is None,
            res.engine_factory.engine == Engines::Dynamic,
    {
        let roots = child_roots(&children);
        let ghost rs = roots@;
        proof {
            crate::node::lemma_node_list_view(rs);
        }
        let bt = BT::new();
        let bt = BT::<Preparing> { root: Node::Sequence(roots), ..bt };
        proof {
            assert forall|i: int| 0 <= i < children@.len() implies node_list_view(
                rs,
            )[i] == children@[i].root@ by {
                assert(rs[i]@ == children@[i].root@);
            }
            assert(node_list_view(rs) =~= Seq::new(
                children@.len(),
                |i: int| children@[i].root@,
            ));
        }
        bt.into_state::<Builder>()
    }

    /// A fallback over the given subtrees, in order.
    pub fn fb(children: Vec<BT<Builder>>) -> (res: BT<Builder>)
        ensures
            res.root@ == NodeView::Fallback(
                Seq::new(children@.len(), |i: int| children@[i].root@),
            ),
            res.result is None,
            res.engine_factory.engine == Engines::Dynamic,
    {
        let roots = child_roots(&children);
        let ghost rs = roots@;
        proof {
            crate::node::lemma_node_list_view(rs);
        }
        let bt = BT::new();
        let bt = BT::<Preparing> { root: Node::Fallback(roots), ..bt };
        proof {
            assert forall|i: int| 0 <= i < children@.len() implies node_list_view(
                rs,
            )[i] == children@[i].root@ by {
                assert(rs[i]@ == children@[i].root@);
            }
            assert(node_list_view(rs) =~= Seq::new(
                children@.len(),
                |i: int| children@[i].root@,
            ));
        }
        bt.into_state::<Builder>()
    }
}

/// The roots of a list of subtrees, in order.
fn child_roots(children: &Vec<BT<Builder>>) -> (res: Vec<Node>)
    ensures
        res@.len() == children@.len(),
        forall|i: int| 0 <= i < children@.len() ==> #[trigger] res@[i]@
            == children@[i].root@,
{
    let mut out: Vec<Node> = Vec::new();
    let mut i: usize = 0;
    while i < children.len()
        invariant
            0 <= i <= children@.len(),
            out@.len() == i,
            forall|k: int| 0 <= k < i ==> #[trigger] out@[k]@ == children@[k].root@,
        decreases children@.len() - i,
    {
        out.push(children[i].root.clone());
        i = i + 1;
    }
    out
}

impl BT<Preparing> {
    /// Attaches the finished subtree as the root of this tree.
    pub fn root(self, tree: BT<Builder>) -> (res: BT<Ready>)
        ensures
            res.root == tree.root,
            res.name == self.name,
            res.engine_factory == self.engine_factory,
            res.result == self.result,
    {
        let bt = BT::<Preparing> { root: tree.root, ..self };
        bt.into_state::<Ready>()
    }

    /// Attaches a bare node as the root; for building trees by hand.
    pub fn test_root(self, root: Node) -> (res: BT<Ready>)
        ensures
            res.root == root,
            res.name == self.name,
            res.engine_factory == self.engine_factory,
            res.result == self.result,
    {
        let bt = BT::<Preparing> { root, ..self };
        bt.into_state::<Ready>()
    }
}

impl<T: NotDone> BT<T> {
    /// Gives the tree a diagnostic name.
    pub fn name(self, name: String) -> (res: Self)
        ensures
            res.name == name,
            res.root == self.root,
            res.engine_factory == self.engine_factory,
            res.result == self.result,
    {
        BT::<T> { name, ..self }
    }

    /// Chooses the engine that will execute the tree.
    pub fn set_engine(self, engine: Engines) -> (res: Self)
        ensures
            res.engine_factory.engine == engine,
            res.root == self.root,
            res.name == self.name,
            res.result == self.result,
    {
        let mut factory = self.engine_factory;
        factory.set(engine);
        BT::<T> { engine_factory: factory, ..self }
    }
}

impl BT<Ready> {
    /// Records the status the engine returned; the tree is then done.
    pub fn finish(self, result: bool) -> (res: BT<Done>)
        ensures
            res.result == Some(result),
            res.root == self.root,
            res.name == self.name,
            res.engine_factory == self.engine_factory,
    {
        let bt = BT::<Ready> { result: Some(result), ..self };
        bt.into_state::<Done>()
    }
}

impl BT<Done> {
    /// The final status of the run: `true` for success.
    pub fn result(&self) -> (r: bool)
        requires
            self.result is Some,
        ensures
            r == self.result.unwrap(),
    {
        match self.result {
            Some(res) => res,
            None => {
                proof {
                    assert(false);
                }
                false
            },
        }
    }
}

} // verus!
