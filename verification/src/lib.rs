//! Buffering of FST value changes before they are written out as a value change section.

pub mod bytes;
pub mod varint;
pub mod signal;
pub mod encode;
pub mod lists;
pub mod buffer;
pub mod laws;
pub mod differential;
