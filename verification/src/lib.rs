//! Tumbling windows over a timestamped stream, driven by a progress frontier.
//!
//! Records arrive tagged with a logical time and are buffered until the
//! frontier shows that a window boundary can no longer receive data; the
//! window's records are then handed out exactly once, in timestamp order.

pub mod buffer;
pub mod driver;
pub mod laws;
pub mod records;
pub mod tumbling;
pub mod watermark;
pub mod window;
