//! An in-process publish/subscribe event bus built on a fixed-capacity,
//! sequence-numbered ring buffer.
//!
//! The ring buffer retains the most recent `capacity` items and assigns each
//! pushed item a monotonically increasing sequence number. The router layered
//! on top fans published events out to registered subscribers and replays the
//! retained backlog to late subscribers with globally consistent sequence
//! numbers.

pub mod elevator;
pub mod event_log;
pub mod ring_buffer;
pub mod utils;
