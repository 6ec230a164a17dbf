//! Integer types of the traced target and of the trace itself.

use vstd::prelude::*;

verus! {

/// An address of the traced 32-bit target.
pub type Address = u32;

/// A machine word of the traced target.
pub type USize = u32;

/// The address of a memory-mapped register.
pub type MmioAddress = u32;

/// An address in random-access memory.
pub type RamAddress = u32;

/// The position of an event in a trace.
pub type TraceId = u32;

} // verus!
