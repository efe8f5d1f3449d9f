//! What holds of whole operations, whatever the upstream agents do.
//!
//! An operation is a run: the steps taken on a sequence of events. A run is
//! *driven* when every event is one that may follow on the steps before it, as
//! [`crate::session::Action`] says; the upstream agents still decide which of
//! those comes.
pub mod bind;
pub mod fan;
pub mod history;
pub mod refresh;
pub mod signing;
pub mod values;
