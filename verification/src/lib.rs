//! Adapter from a push-style byte producer to a pull-style stream.
//!
//! A producer only knows how to hand byte chunks to a synchronous sink,
//! one `write` call at a time, and to finish with a success/failure
//! result. The read side polls the adapter with a bounded destination
//! buffer; each poll completes at most one pending `write` (a short
//! write: at most the destination's remaining capacity), and the
//! producer's terminal result is surfaced exactly once, at the poll that
//! completes the stream.

pub mod buffer;
pub mod error;
pub mod producer;
pub mod reader;
