use vstd::prelude::*;

verus! {

/// A subsystem was used before the boot configuration it depends on was
/// available.
#[derive(Debug, Clone, Copy, PartialEq, Eq)]
pub struct NotInitError;

} // verus!
