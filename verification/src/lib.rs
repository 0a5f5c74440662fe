//! A 4-bit-per-pixel image codec over a fixed 16-colour palette.
//!
//! A stream is a 3-byte dimension header followed by a body in which every
//! byte carries two palette codes. The body is produced chunk by chunk, and
//! each chunk may be protected on its own by format-preserving encryption.
//!
//! - [`palette`]: the code table, the quantization palette and the nearest
//!   colour.
//! - [`codec`]: packing pixels into bytes and back.
//! - [`header`]: the dimension header.
//! - [`cipher`]: key strings and the keyed step.
//! - [`chunks`]: how a buffer is cut for the workers.
//! - [`pipeline`]: the workers and whole streams.
//! - [`error`]: what can go wrong.

pub mod error;
pub mod header;
pub mod palette;
pub mod codec;
pub mod cipher;
pub mod chunks;
pub mod pipeline;
