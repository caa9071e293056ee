//! Core model of a personal time tracker: calendar days, timed tasks with
//! descriptions, the repository rules that keep a day's tasks consistent
//! (one active task at a time, non-overlapping intervals, backward repair of
//! a neighbour when a start time is edited), and the aggregation of a day's
//! tasks into description groups.
//!
//! Storage and the clock are external collaborators: every operation takes
//! the values it needs (the current date and time) as plain arguments, and
//! the repositories hold their rows in memory.

pub mod aggregate;
pub mod config;
pub mod date;
pub mod day;
pub mod error;
pub mod task;
pub mod text;
pub mod time;
