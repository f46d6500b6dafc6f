//! A verified wire-protocol layer for the RESP serialization protocol
//! (generations 2 and 3): frame model, encoder, decoder with streaming
//! reassembly, size instrumentation, and the monitor feed model.

pub mod error;
pub mod frame;
pub mod text;
pub mod encode;
pub mod decode;
pub mod streaming;
pub mod stats;
pub mod auth;
pub mod version;
pub mod codec;
pub mod monitor;
pub mod laws;
