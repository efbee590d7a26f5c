//! CBOR data items: definite-length encoding, and decoding of
//! definite- and indefinite-length items. There are no floating-point items.
pub mod decode;
pub mod encode;
pub mod laws;
pub mod read_laws;
pub mod value;
pub mod wire_laws;

pub use decode::{from_slice, Error};
pub use encode::to_vec;
pub use value::{Item, Value};
