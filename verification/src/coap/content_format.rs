//! Numbers of the content formats that carry YANG data.
use vstd::prelude::*;

verus! {

/// A whole datastore or a part of it.
pub const YANG_DATA_CBOR: u16 = 140;

/// A sequence of instance identifiers.
pub const YANG_IDENTIFIERS_CBOR: u16 = 141;

/// A sequence of instance identifiers with their values.
pub const YANG_INSTANCES_CBOR: u16 = 142;

} // verus!
