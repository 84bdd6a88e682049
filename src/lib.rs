//! Evaluation core of a digital logic simulator: three-valued signals,
//! gates with memoized outputs, and wires that propagate values between gates.

pub mod state;
pub mod port;
pub mod slots;
pub mod cache;
pub mod block;
pub mod wire;
pub mod circuit;

pub use state::LogicState;
pub use port::LogicBlockPort;
pub use cache::{LogicBlockCache, MAX_CACHE_INPUTS};
pub use block::{LogicBlock, GateKind, UsageError};
pub use wire::{Wire, WireOutput};
pub use circuit::{Circuit, DrainReport, STEPS_PER_WIRE};
pub use block::{new_and_gate, new_or_gate, logic_and_fn, logic_or_fn};
pub use slots::PortMap;
