//! A DNS message library: building queries, encoding them to the RFC 1035
//! wire format, and decoding responses, with every step verified.

pub mod wire;
pub mod text;
pub mod errors;
pub mod types;
pub mod encoder;
pub mod decoder;
pub mod builder;
pub mod utils;
pub mod transport;
pub mod laws;
