//! Types of frames. A device may send any of them.
use vstd::prelude::*;

verus! {

/// Sent by a device when it boots.
pub const ANNOUNCE: u8 = 0x41;

/// A message of the protocol, either direction.
pub const COAP_LOWER: u8 = 0x63;

/// A message of the protocol, either direction.
pub const COAP_UPPER: u8 = 0x43;

/// A DTLS record: neither sent nor decrypted here.
pub const DTLS_LOWER: u8 = 0x64;

/// A DTLS record: neither sent nor decrypted here.
pub const DTLS_UPPER: u8 = 0x44;

/// A probe for liveness.
pub const PING: u8 = 0x70;

/// The answer to a probe.
pub const PONG: u8 = 0x50;

/// Free-form trace text of a device.
pub const TRACE: u8 = 0x54;

} // verus!
