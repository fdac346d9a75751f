//! A personal calendar manager: calendars of possibly recurring events, an
//! index that tracks which calendar is active, and the engine that turns
//! event definitions into the concrete occurrences inside a time window.
//!
//! Timestamps are whole seconds since the Unix epoch (`i64`); durations are
//! whole seconds too.
pub mod calendar;
pub mod calendar_index;
pub mod calendar_ref;
pub mod clock;
pub mod commands;
pub mod config;
pub mod deadline;
pub mod duration;
pub mod event;
pub mod expand;
pub mod parser;
pub mod refresh;
mod seq_facts;
pub mod util;
pub mod validator;
