//! Core of a real-time pixel-streaming pipeline.
//!
//! Three actors cooperate through message channels: a producer walks a
//! rectangular pixel domain and emits bounded batches of color updates, a
//! router forwards commands between the actors and owns the shutdown
//! decision, and a consumer applies drained batches to a backing buffer that
//! it uploads to a renderer. This crate holds the verified decision and
//! computation logic of those actors; channels, threads and the renderer
//! itself live outside it.

pub mod consumer;
pub mod message;
pub mod producer;
pub mod router;
