//! The framed binary wire protocol between clients, nodes and tools.

pub mod codec;
pub mod frame;
pub mod types;
