//! Recursive history tracing for the lines a branch changed.
//!
//! The library holds the pure parts of the tool: the row types written to the
//! lineage database, the planning rules that decide how each blamed span is
//! followed into its parents, the scanner state machine that drives a whole
//! traversal, what it makes of repository data, and the small text and date
//! utilities around them.
pub mod cli;
pub mod dates;
pub mod db;
pub mod git_ops;
pub mod scan;
pub mod skill;
pub mod text;
