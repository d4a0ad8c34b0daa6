//! The packet-stream classification and inference engine.
pub mod containers;
pub mod dissect;
pub mod scan;
pub mod session;
pub mod utils;
