//! A library for watching coding-assistant sessions that live inside
//! terminal-multiplexer panes: it aggregates raw session records against the
//! set of live panes (filter, deduplicate per pane keeping the freshest,
//! sort by recency), enriches them with per-project index metadata, and
//! drives the selection state of an interactive dashboard.

pub mod dashboard;
pub mod display;
pub mod session;
pub mod text;
