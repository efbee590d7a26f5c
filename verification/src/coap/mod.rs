//! The message protocol: requests, responses and blockwise transfer.
pub mod client;
pub mod content_format;
pub mod laws;
pub mod message;
pub mod wire_laws;

pub use client::{Client, CoapError, Response, DEFAULT_BLOCK_SIZE};
pub use message::Method;
