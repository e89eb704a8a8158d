use vstd::prelude::*;

verus! {

/// Errors raised by the routing core.
#[derive(Debug, Clone, Copy, PartialEq, Eq, Structural)]
pub enum Error {
    /// The topology text does not assign every slot exactly once.
    BadSlotsMap,
}

} // verus!
