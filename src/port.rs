use vstd::prelude::*;
use crate::state::{LogicState, through};

verus! {

/// One input or output slot of a gate: its current value, its inversion flag,
/// and the bit position it takes in its gate's cache key.
#[derive(Debug, Clone, Copy, PartialEq, Eq, Structural)]
pub struct LogicBlockPort {
    pub state: LogicState,
    pub is_inverted: bool,
    pub input_num: usize,
}

impl LogicBlockPort {
    /// The port that `new` makes.
    pub open spec fn spec_new() -> LogicBlockPort {
        LogicBlockPort { state: LogicState::LOW, is_inverted: false, input_num: 0 }
    }

    /// A fresh port: `LOW`, not inverted, at bit position 0.
    pub fn new() -> (r: LogicBlockPort)
        ensures
            r == LogicBlockPort::spec_new(),
    {
        LogicBlockPort { state: LogicState::LOW, is_inverted: false, input_num: 0 }
    }

    /// Sets the inversion flag applied to every later value.
    pub fn invert(&mut self, inverted: bool)
        ensures
            *final(self) == (LogicBlockPort { is_inverted: inverted, ..*old(self) }),
    {
        self.is_inverted = inverted;
    }

    /// Stores `state`, inverted when the port is inverted.
    pub fn set_state(&mut self, state: LogicState)
        ensures
            *final(self) == (LogicBlockPort { state: through(old(self).is_inverted, state), ..*old(self) }),
    {
        if self.is_inverted {
            self.state = state.not();
        } else {
            self.state = state;
        }
    }

    /// The value the port holds.
    pub fn get_output(&self) -> (r: LogicState)
        ensures
            r == self.state,
    {
        self.state
    }
}

} // verus!
