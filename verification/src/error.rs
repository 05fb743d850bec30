use vstd::prelude::*;

verus! {

/// Why a value could not be turned into a custom id or back.
#[derive(Debug, Clone, Copy, PartialEq, Eq, Structural)]
pub enum CustomIdError {
    /// Discord custom ids hold at most 100 UTF-16 code units; the value
    /// needs more bits than that.
    DataTooBig,
    /// The bits ran out before the value was complete.
    DeserializationFailed,
}

} // verus!
