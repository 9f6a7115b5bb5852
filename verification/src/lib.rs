//! A task tracker with due-date reminders.
//!
//! The crate holds the task entity, the store that owns the tasks and
//! assigns their ids, and the scheduler that finds the tasks whose reminder
//! is due.  Every contract is stated over the mathematical views of these
//! types.
pub mod cli;
pub mod clock;
pub mod task;
pub mod storage;
pub mod store_laws;
pub mod scheduler;
