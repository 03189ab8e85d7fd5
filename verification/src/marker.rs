//! Marker traits which affect what is allowed on a handle.

use vstd::prelude::*;

verus! {

/// Types with this marker may be reinterpreted behind a handle without the
/// allocator's help.
pub trait BlindTransmute {

}

/// Types with this marker allow a plain handle to be upgraded to one with
/// mutable access.
pub trait UpgradeHandle {

}

} // verus!
