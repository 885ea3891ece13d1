//! Verified core of a telemetry ingestion gateway for intermittently
//! connected field devices.
//!
//! Devices register, send periodic liveness signals, and transmit sampled
//! data over a persistent line-delimited JSON connection; compiled scripts
//! subscribe to transmitted channels and react to samples.  The modules
//! here hold the parts with real invariants: the device liveness registry
//! with its TTL semantics (`registry`), the wire codec (`codec`), the
//! per-connection protocol step (`protocol`), the listener dispatch rules
//! (`dispatch`), and the core of the companion time-broadcast service
//! (`timesync`).  Transport, storage connections and the script engine
//! setup are the embedding program's business.

pub mod codec;
pub mod config;
pub mod dispatch;
pub mod protocol;
pub mod registry;
pub mod timesync;
