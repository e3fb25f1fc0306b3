//! Analytical CPU scheduling: per-process waiting times and their totals
//! under first-come-first-served and round-robin dispatching.
//!
//! Times are integers; averages are the totals divided by the number of
//! processes, which callers compute in floating point.
pub mod process;
pub mod round_robin;
pub mod fcfs;
pub mod lemmas;
