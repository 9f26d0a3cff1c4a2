//! Parallel git bisection scheduler.
//!
//! The core of the crate is the scheduler in [`sched`]: given a sequence of
//! commits bracketing a regression, it decides which commits the available
//! runners should test next, and how a completed result narrows the search.
//! [`shell`] and [`visualize`] hold the pure parts of the surrounding driver:
//! building reproducer command text and rendering the commit strip.

pub mod sched;
pub mod shell;
pub mod visualize;

pub use sched::CommitState;
pub use sched::Runners;
pub use sched::State;
pub use sched::Status;
