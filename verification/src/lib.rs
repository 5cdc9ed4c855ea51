//! Decoder for a Redis-style (RESP2) wire protocol.
//!
//! The library decides, for a growable receive buffer filled in arbitrary
//! fragments, whether a complete protocol frame is present at the current
//! read position; if so it decodes the frame and advances the cursor past
//! it, and if not it reports that more bytes are needed without corrupting
//! any state.  The wire grammar is modelled by the spec functions in
//! [`grammar`], and every decoding function is proved against that model.

pub mod cursor;
pub mod frame;
pub mod grammar;
pub mod laws;
pub mod num;
mod trusted;
