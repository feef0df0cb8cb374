use vstd::prelude::*;

verus! {

/// The failures the library reports.
#[derive(Clone, Copy, Debug, PartialEq, Eq, Structural)]
pub enum Error {
    /// The operand shapes do not allow the requested operation.
    DimensionMismatch,
    /// A worker's reply channel closed before its value arrived.
    ChannelBroken,
    /// A lock guarding shared state was poisoned by a panicking holder.
    LockPoisoned,
}

} // verus!
