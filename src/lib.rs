use vstd::prelude::*;

pub mod decode;
pub mod device;
pub mod names;
pub mod planner;
pub mod poll;
pub mod register;

verus! {

/// Largest number of words that one read request may ask for.
pub const MODBUS_MAX_READ_LEN: u16 = 125;

} // verus!
