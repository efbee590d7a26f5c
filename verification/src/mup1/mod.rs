//! Framing for a serial line: byte-stuffed frames with a type, data and a
//! checksum.
pub mod checksum;
pub mod client;
pub mod decoder_laws;
pub mod frame;
pub mod frame_type;
pub mod laws;
pub mod transport;
pub mod wire_laws;

pub use checksum::ChecksumType;
pub use client::Mup1Client;
pub use frame::{Decoder, Frame, InjectStatus, MAX_DATA_SIZE, TYPE_RAW};
