//! The device that a reserved test setup names.
use vstd::prelude::*;

use crate::yang::parser::opt_text;

verus! {

/// The device of a setup.
#[derive(Debug)]
pub struct Dut {
    pub terminal: Option<String>,
}

/// A setup.
#[derive(Debug)]
pub struct Topology {
    pub dut: Dut,
}

/// The device that a setup names, if there is a setup and it names one.
pub open spec fn named_device(topology: Option<Topology>) -> Option<Seq<char>> {
    match topology {
        Some(t) => opt_text(t.dut.terminal),
        None => None,
    }
}

/// The device that a setup names.
pub fn device_from(topology: &Option<Topology>) -> (r: Option<String>)
    ensures
        opt_text(r) == named_device(*topology),
{
    match topology {
        Some(t) => match &t.dut.terminal {
            Some(d) => Some(d.clone()),
            None => None,
        },
        None => None,
    }
}

} // verus!
