//! A delayed-work scheduler: timeouts are kept as a chain of relative delays,
//! and a single timekeeper decides when to wait and what to dispatch.
pub mod timeout;
pub mod queue;
pub mod keeper;
