//! An in-process emulator for a small network of blockchains: one relay
//! chain and a set of secondary chains ("parachains"), connected by typed,
//! ordered message channels and driven by a deterministic round scheduler.
//!
//! The engine itself is verified: channels are FIFO and lose nothing,
//! rounds are deterministic functions of the previous network state, and
//! the event-assertion matcher is exact. The behaviour of an individual
//! chain is abstracted behind the `ChainRuntime` trait; a small ping/pong
//! runtime is provided as a concrete instance.

pub mod channel;
pub mod event;
pub mod network;
pub mod ping;
pub mod runtime;
