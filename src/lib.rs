//! Framing protocol and bridge logic for a terminal proxy backend.
//!
//! One TCP connection carries terminal bytes, resize requests, and
//! process-name / working-directory updates as length-prefixed frames.

pub mod buffer;
pub mod frame;
pub mod stream;
pub mod bridge;

