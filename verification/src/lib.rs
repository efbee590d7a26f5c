//! Requests to devices that are managed by YANG data models over CoAP: the
//! serial framing, the message protocol, the data encoding and the data model.
pub mod bytes;
pub mod cbor;
pub mod coap;
pub mod command;
pub mod json;
pub mod json_laws;
pub mod mup1;
pub mod text;
pub mod text_laws;
pub mod yang;
