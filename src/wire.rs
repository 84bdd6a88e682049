use vstd::prelude::*;
use slotmap::DefaultKey;
use crate::state::LogicState;

verus! {

/// One fan-out target of a wire: the index of a gate and the handle of one of
/// its input ports. The wire does not own that gate.
#[derive(Debug, Clone, Copy)]
pub struct WireOutput {
    pub logic_block: usize,
    pub input_key: DefaultKey,
}

impl WireOutput {
    /// The target made of a gate index and a port handle.
    pub fn new(logic_block: usize, key: DefaultKey) -> (r: WireOutput)
        ensures
            r.logic_block == logic_block,
            r.input_key == key,
    {
        WireOutput { logic_block, input_key: key }
    }
}

/// A wire: the value it carries and the ports it feeds, in order.
pub struct Wire {
    pub state: LogicState,
    pub outputs: Vec<WireOutput>,
}

impl Wire {
    /// An undriven wire (`INVALID`) with no targets.
    pub fn new() -> (r: Wire)
        ensures
            r.state == LogicState::INVALID,
            r.outputs@ == Seq::<WireOutput>::empty(),
    {
        Wire { state: LogicState::INVALID, outputs: Vec::new() }
    }

    /// Appends a target.
    pub fn add_output(&mut self, output: WireOutput)
        ensures
            final(self).state == old(self).state,
            final(self).outputs@ == old(self).outputs@.push(output),
    {
        self.outputs.push(output);
    }

    /// Removes the target at position `j`.
    pub fn remove_output(&mut self, j: usize)
        requires
            j < old(self).outputs@.len(),
        ensures
            final(self).state == old(self).state,
            final(self).outputs@ == old(self).outputs@.remove(j as int),
    {
        self.outputs.remove(j);
    }

    /// Sets the value the wire carries.
    pub fn set_state(&mut self, state: LogicState)
        ensures
            final(self).state == state,
            final(self).outputs == old(self).outputs,
    {
        self.state = state;
    }

    /// The value the wire carries: the one last pushed to it.
    pub fn get_state(&self) -> (r: LogicState)
        ensures
            r == self.state,
    {
        self.state
    }
}

} // verus!
