//! Core of an SSH agent multiplexer.
//!
//! A multiplexer listens on one agent socket and serves its clients out of
//! several upstream agents. This library holds everything that it decides and
//! computes; it performs no I/O. An operation on sockets is a function from
//! state and event to the next state and [`step::Step`], and the caller
//! performs the step.
//!
//! - [`session`]: what is done for a client: listing identities, signing,
//!   session-bind.
//! - [`laws`]: what holds of whole operations.
//! - [`proto`]: agent protocol values, timeouts and errors.
//! - [`known_keys`]: which upstream agent holds which key.
//! - [`peer`]: who the client is, for logs and notifications.
//! - [`notify`]: what a desktop notification says.
//! - [`paths`], [`byte_map`], [`text`]: the helpers underneath.
pub mod byte_map;
pub mod known_keys;
pub mod laws;
pub mod notify;
pub mod paths;
pub mod peer;
pub mod proto;
pub mod session;
pub mod step;
pub mod text;
