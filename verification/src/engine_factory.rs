//! Selection of the engine that executes a tree.

use vstd::prelude::*;

verus! {

/// Which engine executes the tree.
#[derive(Debug, Clone, Copy, PartialEq, Eq, Structural)]
pub enum Engines {
    /// Event-based; precomputes a map `(node, status) -> next node`.
    Static,
    /// Event-based; recomputes traversal at run time.
    Dynamic,
}

/// Carries the engine choice through the builder.
#[derive(Debug, Clone, Copy, PartialEq, Eq, Structural)]
pub struct EngineFactory {
    pub engine: Engines,
}

impl EngineFactory {
    pub fn set(&mut self, engine: Engines)
        ensures
            final(self).engine == engine,
    {
        self.engine = engine
    }
}

} // verus!
