//! Structured messaging for Haiku: the self-describing `Message` record and
//! its byte-exact wire format, the message dispatch loop of a `Looper`, the
//! `Messenger` send protocol, and the batching link protocol spoken with
//! system servers.
//!
//! Everything here computes on plain values; reading and writing ports is
//! left to the caller.
pub mod application;
pub mod errors;
pub mod flattenable;
pub mod kernel;
pub mod link;
pub mod looper;
pub mod message;
pub mod message_edit;
pub mod messenger;
pub mod mimetype;
pub mod roster;
pub mod types;
pub mod wire;
