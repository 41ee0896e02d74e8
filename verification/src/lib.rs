//! A hierarchical state machine executor.
//!
//! A machine is a fixed forest of named states. Messages go to the current
//! leaf and bubble to its ancestors until one of them handles them; a
//! transition exits the states that the old and the new leaf do not share and
//! enters the new ones at the start of the next dispatch.
pub mod coherence;
pub mod executor;
pub mod laws;
pub mod model;
pub mod pruning;
pub mod rounds;
pub mod state;
pub mod topology;

pub use executor::{BuildError, Executor};
pub use state::{Deferrals, Handled, StateInfo, StateResult, Transition};
