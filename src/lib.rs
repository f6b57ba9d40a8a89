//! Grades a suite of programs: each unit's arguments are resolved, its
//! output is compared line by line with the expected text, and the points of
//! the units that match exactly are summed.
pub mod cli;
pub mod config;
pub mod diff;
pub mod unit;
