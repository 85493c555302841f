//! Mirrors button and light state onto HID lighting hardware: a taxonomy of
//! lighting targets, snapshots of what they should show, the binding of a
//! target-to-bit-field mapping to report layouts, and the worker that writes
//! each snapshot into the reports.

use vstd::prelude::*;

pub mod device;
pub mod mapping;
pub mod state;
pub mod target;
pub mod worker;

verus! {

} // verus!
