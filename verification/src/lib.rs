//! Synchronization engine for a small shared-session virtual tabletop.
//!
//! One host owns the canonical session state (chat log, tokens on three
//! layers, uploaded image assets); any number of peers mirror it over a
//! framed byte protocol. This crate holds the verified core: the wire
//! codec, the admission pipeline, the authoritative event reducer with
//! its broadcast policy, the passive client mirror, and a timestamp-based
//! reconciling mirror offered as an alternative consistency model.
//! Socket, file and thread plumbing live outside the library and talk to
//! it through plain values.

pub mod client;
pub mod codec;
pub mod communication;
pub mod server;
pub mod state;
pub mod utils;
