//! Typed decoding of the JSON replies of a bitcoin node's RPC interface.

pub mod chain;
pub mod convert;
pub mod error;
pub mod json;
pub mod laws;
pub mod number;
