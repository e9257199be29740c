//! A harness around an external benchmark-capable binary: it discovers the
//! available benchmark units grouped by category, filters them to the
//! requested subset, and drives the sequential execution loop that measures
//! each unit and renders the report sorted by elapsed duration.

pub mod catalog;
pub mod filter;
pub mod node;
pub mod order;
pub mod parse;
pub mod runner;
