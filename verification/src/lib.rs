//! Verified core of a minimal task-list application.
//!
//! The library owns the ordered task sequence and its two state transitions
//! (adding a task, toggling completion), the pruning of completed tasks, and
//! a textual encoding used to persist the list between sessions.  Every
//! operation carries a contract over a mathematical model of the list, and
//! the persistence encoding is proved to round-trip.

pub mod codec;
pub mod persist;
pub mod store;
pub mod task;
