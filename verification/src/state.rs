//! The lifecycle state of a node and the store that holds it.

use vstd::prelude::*;

verus! {

/// The lifecycle state of a node.
#[derive(Debug, Clone, Copy, PartialEq, Eq, Hash, Structural)]
pub enum State {
    /// The node has been created and has not yet adopted any proposal.
    Init,
    /// The node is running.
    Running,
    /// The node has been stopped.
    Stopped,
}

/// Holds the current lifecycle state of a node.
///
/// The store validates nothing: any state may replace any other. Callers
/// that share a store between tasks keep it behind their own lock and lend
/// it out for the duration of one call.
#[derive(Debug)]
pub struct StateStore {
    current: State,
}

impl View for StateStore {
    type V = State;

    closed spec fn view(&self) -> State {
        self.current
    }
}

impl StateStore {
    /// Creates a store that holds `initial`.
    pub fn new(initial: State) -> (store: StateStore)
        ensures
            store@ == initial,
    {
        StateStore { current: initial }
    }

    /// Returns the state currently held.
    pub fn get(&self) -> (current: State)
        ensures
            current == self@,
    {
        self.current
    }

    /// Replaces the state held with `new_state`, whatever it was before.
    pub fn set(&mut self, new_state: State)
        ensures
            final(self)@ == new_state,
    {
        self.current = new_state;
    }
}

} // verus!
