use vstd::prelude::*;

verus! {

/// A three-valued logic signal. `INVALID` stands for "not yet driven" or
/// "ambiguous" and is never the same as `LOW` or `HIGH`.
#[allow(non_camel_case_types)]
#[derive(Debug, Clone, Copy, PartialEq, Eq, Structural)]
pub enum LogicState {
    LOW,
    HIGH,
    INVALID,
}

/// Inversion: swaps `LOW` and `HIGH` and leaves `INVALID` as it is.
pub open spec fn negated(s: LogicState) -> LogicState {
    match s {
        LogicState::LOW => LogicState::HIGH,
        LogicState::HIGH => LogicState::LOW,
        LogicState::INVALID => LogicState::INVALID,
    }
}

/// The value a port stores when `s` arrives on it with the given inversion flag.
pub open spec fn through(inverted: bool, s: LogicState) -> LogicState {
    if inverted {
        negated(s)
    } else {
        s
    }
}

/// The signal for a boolean outcome.
pub open spec fn from_bool(b: bool) -> LogicState {
    if b {
        LogicState::HIGH
    } else {
        LogicState::LOW
    }
}

impl LogicState {
    /// Logical inversion of the signal.
    pub fn not(self) -> (r: LogicState)
        ensures
            r == negated(self),
    {
        match self {
            LogicState::LOW => LogicState::HIGH,
            LogicState::HIGH => LogicState::LOW,
            LogicState::INVALID => LogicState::INVALID,
        }
    }
}

} // verus!
