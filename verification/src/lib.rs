//! Hosts-file maintenance for a host-configuration daemon.
//!
//! The crate has two halves: [`hosts`] holds the reconciliation algorithm
//! that keeps exactly one generated name/address mapping in a hosts file
//! while preserving everything written there by other tools, and
//! [`control`] holds the event-driven state machine that decides, for each
//! incoming event, whether to apply a new canonical identity or to stop.

pub mod control;
pub mod hosts;
