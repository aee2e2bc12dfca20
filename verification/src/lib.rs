//! Verified core of a pub/sub heating controller.
//!
//! The crate ingests raw bus messages (topic/payload pairs), classifies them
//! into typed events, folds those events into an aggregate view of all known
//! thermometers, and derives two decisions from that view: an alarm level and
//! a binary actuation demand. Operator commands are relayed back onto the bus
//! as outbound messages. Everything here is plain data and pure logic; the
//! transport (bus client, HTTP tier, history store) lives outside the crate.

pub mod history;
pub mod ingress;
pub mod relay;
pub mod state;
pub mod temperature;
pub mod tick;
