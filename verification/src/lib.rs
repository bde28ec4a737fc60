//! A fine-grained reactive graph engine: signals, derived values, effects and
//! scopes, kept in an arena of nodes and links.
//!
//! The engine never runs user code. The values and the callables stay with
//! the embedder, keyed by the nodes. An operation that surrounds a user
//! callback comes in two halves, one before the callback and one after it; a
//! walk that needs a value recomputed, and the run of an effect, proceed in
//! steps, each of which tells the embedder what to do next and is resumed
//! with the outcome.
//!
//! Every operation keeps the graph consistent (`ReactiveSystem::wf`): each
//! link lies in the subscriber list of its dependency and in the dependency
//! list of its subscriber, each node but the root lies in its parent's list of
//! children, and the lists are threaded as their models say.
//!
//! Tearing a node down lets go what it read, and what loses its last
//! subscriber that way is torn down in turn. A node is sheltered
//! (`ReactiveSystem::sheltered`) when its parent lies in a set of nodes that
//! is closed under parent and subscribers and does not hold the node; such a
//! node outlives its own teardown.

// keys, flags and the records of the graph
pub mod chain;
pub mod flags;
pub mod keys;
pub mod types;
pub mod values;
pub mod handles;
pub mod steps;

// the arenas and the graph
pub mod arena;
pub mod system;
pub mod lifecycle;
pub mod links;
pub mod shelter;
pub mod teardown;

// marking, queueing and checking
pub mod propagation;
pub mod marking;
pub mod checking;
pub mod tracking;
pub mod batching;

// the operations around user code
pub mod signal;
pub mod computed;
pub mod reading;
pub mod effect;
pub mod scope;
pub mod context;

pub mod laws;
