//! Plugin communication and result-model layer of a launcher application.
//!
//! A host process dispatches a query to an external plugin process; the
//! plugin returns a list of actionable results which the host renders and
//! executes.  This crate holds the parts with a real contract surface:
//! the query-string parser, the request/response message model, the
//! deterministic binary wire codec, and the one-shot exchange protocol.
//! Process spawning, standard streams and the configuration file live
//! outside, around this library.

pub mod codec;
pub mod config;
pub mod plugin;
pub mod query;
pub mod results;
