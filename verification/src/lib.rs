//! An event-sourcing substrate: an append-only log with one causal chain per
//! writer, a hybrid logical clock that orders updates without coordination,
//! and two consistency policies built on that clock, a last-writer-wins
//! register and a task queue with worker leases.

pub mod clock;
pub mod encoding;
pub mod error;
pub mod ids;
pub mod log;
pub mod lww;
pub mod payload;
pub mod queue;
pub mod text;
