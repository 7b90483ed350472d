//! Removes configured secret values from a byte stream before it reaches a
//! log or terminal. The engine keeps a window of the most recent bytes,
//! sized to the longest secret, marks matched spans with a sentinel, and
//! emits a fixed marker in place of each contiguous run of marked bytes.

pub mod redactor;
pub mod runner;
pub mod secret;
