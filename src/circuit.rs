use vstd::prelude::*;
use std::collections::VecDeque;
use slotmap::DefaultKey;
use crate::state::{LogicState, through};
use crate::block::{LogicBlock, GateKind, UsageError};
use crate::wire::{Wire, WireOutput};
use crate::port::LogicBlockPort;
use crate::slots::same_key;

verus! {

/// The step limit of a drain, per wire of the circuit.
pub const STEPS_PER_WIRE: usize = 10;

/// What a drain ended with.
#[derive(Debug, Clone, Copy, PartialEq, Eq, Structural)]
pub struct DrainReport {
    /// No wire is left to process: the circuit is stable.
    pub settled: bool,
    /// How many wires were processed.
    pub steps: usize,
}

/// The step limit of a drain on a circuit of `wires` wires.
pub open spec fn step_limit(wires: int) -> int {
    if wires * STEPS_PER_WIRE <= usize::MAX {
        wires * STEPS_PER_WIRE
    } else {
        usize::MAX as int
    }
}

/// A circuit: the gates and wires it owns, which wire each gate's output
/// drives, and the wires waiting to be processed.
pub struct Circuit {
    pub gates: Vec<LogicBlock>,
    pub wires: Vec<Wire>,
    /// For each gate, the wire its output drives, if any.
    pub drives: Vec<Option<usize>>,
    /// The dirty wires, in the order they will be processed.
    pub dirty: VecDeque<usize>,
    /// For each wire, whether it is in `dirty`.
    pub queued: Vec<bool>,
}

impl Circuit {
    /// Target `j` of wire `w`.
    pub open spec fn target(&self, w: int, j: int) -> WireOutput {
        self.wires@[w].outputs@[j]
    }

    /// Whether `(w, j)` names a target of a wire.
    pub open spec fn has_target(&self, w: int, j: int) -> bool {
        0 <= w < self.wires@.len() && 0 <= j < self.wires@[w].outputs@.len()
    }

    /// Whether some wire already feeds input `key` of gate `g`.
    pub open spec fn is_driven(&self, g: int, key: DefaultKey) -> bool {
        exists|w: int, j: int| #[trigger] self.has_target(w, j) && self.target(w, j).logic_block == g
            && self.target(w, j).input_key == key
    }

    /// The circuit's invariant: every index is in range, every target is an
    /// input of its gate, no two targets name the same port, and the dirty
    /// queue holds each wire at most once, as `queued` records.
    pub open spec fn wf(&self) -> bool {
        &&& self.wiring_ok()
        &&& self.queue_ok()
    }

    /// Every index is in range, every target is an input of its gate, and no
    /// two targets name the same port.
    pub open spec fn wiring_ok(&self) -> bool {
        &&& self.drives@.len() == self.gates@.len()
        &&& forall|g: int| 0 <= g < self.gates@.len() ==> #[trigger] self.gates@[g].wf()
        &&& forall|g: int| 0 <= g < self.drives@.len() && #[trigger] self.drives@[g].is_some()
            ==> self.drives@[g].unwrap() < self.wires@.len()
        &&& forall|w: int, j: int| #[trigger] self.has_target(w, j) ==> {
            &&& self.target(w, j).logic_block < self.gates@.len()
            &&& self.gates@[self.target(w, j).logic_block as int].ports().contains_key(self.target(w, j).input_key)
        }
        &&& forall|w1: int, j1: int, w2: int, j2: int|
            #[trigger] self.has_target(w1, j1) && #[trigger] self.has_target(w2, j2) && (w1 != w2 || j1 != j2)
                ==> (self.target(w1, j1).logic_block != self.target(w2, j2).logic_block
                    || self.target(w1, j1).input_key != self.target(w2, j2).input_key)
    }

    /// The dirty queue holds each wire at most once, as `queued` records.
    pub open spec fn queue_ok(&self) -> bool {
        &&& self.queued@.len() == self.wires@.len()
        &&& self.dirty@.no_duplicates()
        &&& forall|i: int| 0 <= i < self.dirty@.len() ==> #[trigger] self.dirty@[i] < self.wires@.len()
        &&& forall|w: usize| w < self.queued@.len() ==> (#[trigger] self.queued@[w as int] <==> self.dirty@.contains(w))
    }

    /// An empty circuit.
    pub fn new() -> (r: Circuit)
        ensures
            r.wf(),
            r.gates@.len() == 0,
            r.wires@.len() == 0,
            r.dirty@.len() == 0,
    {
        Circuit {
            gates: Vec::new(),
            wires: Vec::new(),
            drives: Vec::new(),
            dirty: VecDeque::new(),
            queued: Vec::new(),
        }
    }

    /// Adds a gate of the given kind (no inputs, output driving no wire) and
    /// returns its index.
    pub fn add_gate(&mut self, kind: GateKind) -> (r: usize)
        requires
            old(self).wf(),
            old(self).gates@.len() < usize::MAX,
        ensures
            final(self).wf(),
            r == old(self).gates@.len(),
            final(self).gates@.len() == old(self).gates@.len() + 1,
            forall|g: int| 0 <= g < old(self).gates@.len() ==> final(self).gates@[g] == old(self).gates@[g],
            final(self).gates@[r as int].is_new(kind),
            final(self).drives@[r as int].is_none(),
            final(self).wires@ == old(self).wires@,
            final(self).dirty@ == old(self).dirty@,
    {
        let r = self.gates.len();
        let gate = LogicBlock::new(kind);
        self.gates.push(gate);
        self.drives.push(None);
        proof {
            assert forall|w: int, j: int| #[trigger] self.has_target(w, j) implies {
                &&& self.target(w, j).logic_block < self.gates@.len()
                &&& self.gates@[self.target(w, j).logic_block as int].ports().contains_key(self.target(w, j).input_key)
            } by {
                assert(old(self).has_target(w, j));
            }
            assert forall|g: int| 0 <= g < self.gates@.len() implies #[trigger] self.gates@[g].wf() by {
                if g < r {
                    assert(old(self).gates@[g].wf());
                }
            }
            assert forall|g: int| 0 <= g < self.drives@.len() && #[trigger] self.drives@[g].is_some()
                implies self.drives@[g].unwrap() < self.wires@.len() by {
                if g < r {
                    assert(old(self).drives@[g].is_some());
                }
            }
            assert forall|w1: int, j1: int, w2: int, j2: int|
                #[trigger] self.has_target(w1, j1) && #[trigger] self.has_target(w2, j2) && (w1 != w2 || j1 != j2)
                    implies (self.target(w1, j1).logic_block != self.target(w2, j2).logic_block
                        || self.target(w1, j1).input_key != self.target(w2, j2).input_key) by {
                assert(old(self).has_target(w1, j1) && old(self).has_target(w2, j2));
            }
        }
        r
    }

    /// The wiring invariant carries over to a circuit with the same wiring
    /// whose gates are well formed and have kept every input.
    proof fn lemma_frame(a: &Circuit, b: &Circuit)
        requires
            a.wiring_ok(),
            b.gates@.len() == a.gates@.len(),
            b.wires@.len() == a.wires@.len(),
            forall|w: int| 0 <= w < a.wires@.len() ==> #[trigger] b.wires@[w].outputs@ == a.wires@[w].outputs@,
            forall|g: int| 0 <= g < a.gates@.len() ==> #[trigger] b.gates@[g].wf(),
            forall|g: int, k: DefaultKey| 0 <= g < a.gates@.len() && #[trigger] a.gates@[g].ports().contains_key(k)
                ==> #[trigger] b.gates@[g].ports().contains_key(k),
            b.drives@ == a.drives@,
        ensures
            b.wiring_ok(),
    {
        assert forall|w: int, j: int| #[trigger] b.has_target(w, j) implies {
            &&& b.target(w, j).logic_block < b.gates@.len()
            &&& b.gates@[b.target(w, j).logic_block as int].ports().contains_key(b.target(w, j).input_key)
        } by {
            assert(a.has_target(w, j));
            assert(b.wires@[w].outputs@ == a.wires@[w].outputs@);
            let t = a.target(w, j);
            assert(a.gates@[t.logic_block as int].ports().contains_key(t.input_key));
        }
        assert forall|w1: int, j1: int, w2: int, j2: int|
            #[trigger] b.has_target(w1, j1) && #[trigger] b.has_target(w2, j2) && (w1 != w2 || j1 != j2)
                implies (b.target(w1, j1).logic_block != b.target(w2, j2).logic_block
                    || b.target(w1, j1).input_key != b.target(w2, j2).input_key) by {
            assert(b.wires@[w1].outputs@ == a.wires@[w1].outputs@);
            assert(b.wires@[w2].outputs@ == a.wires@[w2].outputs@);
            assert(a.has_target(w1, j1) && a.has_target(w2, j2));
        }
        assert forall|g: int| 0 <= g < b.drives@.len() && #[trigger] b.drives@[g].is_some()
            implies b.drives@[g].unwrap() < b.wires@.len() by {
            assert(a.drives@[g].is_some());
        }
    }

    /// Adds an undriven wire with no targets and returns its index.
    pub fn add_wire(&mut self) -> (r: usize)
        requires
            old(self).wf(),
            old(self).wires@.len() < usize::MAX,
        ensures
            final(self).wf(),
            r == old(self).wires@.len(),
            final(self).wires@.len() == old(self).wires@.len() + 1,
            forall|w: int| 0 <= w < old(self).wires@.len() ==> final(self).wires@[w] == old(self).wires@[w],
            final(self).wires@[r as int].state == LogicState::INVALID,
            final(self).wires@[r as int].outputs@.len() == 0,
            final(self).gates@ == old(self).gates@,
            final(self).dirty@ == old(self).dirty@,
    {
        let r = self.wires.len();
        self.wires.push(Wire::new());
        self.queued.push(false);
        proof {
            assert forall|w: int, j: int| #[trigger] self.has_target(w, j) implies {
                &&& self.target(w, j).logic_block < self.gates@.len()
                &&& self.gates@[self.target(w, j).logic_block as int].ports().contains_key(self.target(w, j).input_key)
            } by {
                assert(old(self).has_target(w, j));
            }
            assert forall|w1: int, j1: int, w2: int, j2: int|
                #[trigger] self.has_target(w1, j1) && #[trigger] self.has_target(w2, j2) && (w1 != w2 || j1 != j2)
                    implies (self.target(w1, j1).logic_block != self.target(w2, j2).logic_block
                        || self.target(w1, j1).input_key != self.target(w2, j2).input_key) by {
                assert(old(self).has_target(w1, j1) && old(self).has_target(w2, j2));
            }
            assert forall|g: int| 0 <= g < self.drives@.len() && #[trigger] self.drives@[g].is_some()
                implies self.drives@[g].unwrap() < self.wires@.len() by {
                assert(old(self).drives@[g].is_some());
            }
            assert forall|w: usize| w < self.queued@.len() implies (#[trigger] self.queued@[w as int]
                <==> self.dirty@.contains(w)) by {
                if w == r {
                    if self.dirty@.contains(w) {
                        let i = choose|i: int| 0 <= i < self.dirty@.len() && self.dirty@[i] == w;
                        assert(self.dirty@[i] < old(self).wires@.len());
                    }
                }
            }
        }
        r
    }

    /// Adds an input port to gate `g` and returns its handle (see
    /// `LogicBlock::add_input`), or `UnknownGate`.
    pub fn add_input(&mut self, g: usize) -> (r: Result<DefaultKey, UsageError>)
        requires
            old(self).wf(),
            g < old(self).gates@.len() ==> old(self).gates@[g as int].ports().len() < 0xFFFF_FFFE,
        ensures
            final(self).wf(),
            g >= old(self).gates@.len() ==> r == Err::<DefaultKey, UsageError>(UsageError::UnknownGate)
                && final(self).gates@ == old(self).gates@,
            g < old(self).gates@.len() ==> r.is_ok() && final(self).gates@[g as int].ports().dom()
                == old(self).gates@[g as int].ports().dom().insert(r.unwrap())
                && !old(self).gates@[g as int].ports().contains_key(r.unwrap())
                && final(self).gates@[g as int].ports()[r.unwrap()] == (LogicBlockPort {
                    state: LogicState::LOW,
                    is_inverted: false,
                    input_num: final(self).gates@[g as int].ports()[r.unwrap()].input_num,
                }),
            final(self).gates@.len() == old(self).gates@.len(),
            forall|h: int| 0 <= h < old(self).gates@.len() && h != g ==> final(self).gates@[h] == old(self).gates@[h],
            final(self).wires@ == old(self).wires@,
            final(self).dirty@ == old(self).dirty@,
    {
        if g >= self.gates.len() {
            return Err(UsageError::UnknownGate);
        }
        let ghost before = *self;
        let key = self.gates[g].add_input();
        proof {
            assert(self.gates@[g as int].ports().contains_key(key));
            assert forall|h: int| 0 <= h < before.gates@.len() implies #[trigger] self.gates@[h].wf() by {
                assert(before.gates@[h].wf());
            }
            Circuit::lemma_frame(&before, self);
        }
        Ok(key)
    }

    /// Sets whether gate `g`'s output is inverted, or reports `UnknownGate`.
    pub fn invert_output(&mut self, g: usize, inverted: bool) -> (r: Result<(), UsageError>)
        requires
            old(self).wf(),
        ensures
            final(self).wf(),
            r.is_ok() == (g < old(self).gates@.len()),
            r.is_err() ==> r == Err::<(), UsageError>(UsageError::UnknownGate),
            g < old(self).gates@.len() ==> final(self).gates@[g as int].output.is_inverted == inverted,
            final(self).gates@.len() == old(self).gates@.len(),
            forall|h: int| 0 <= h < old(self).gates@.len() && h != g ==> final(self).gates@[h] == old(self).gates@[h],
            final(self).wires@ == old(self).wires@,
            final(self).dirty@ == old(self).dirty@,
    {
        if g >= self.gates.len() {
            return Err(UsageError::UnknownGate);
        }
        let ghost before = *self;
        self.gates[g].invert_output(inverted);
        proof {
            assert forall|h: int| 0 <= h < before.gates@.len() implies #[trigger] self.gates@[h].wf() by {
                assert(before.gates@[h].wf());
            }
            Circuit::lemma_frame(&before, self);
        }
        Ok(())
    }

    /// Makes gate `g`'s output drive wire `w` (replacing any earlier wire),
    /// or reports `UnknownGate` or `UnknownWire`.
    pub fn connect_output(&mut self, g: usize, w: usize) -> (r: Result<(), UsageError>)
        requires
            old(self).wf(),
        ensures
            final(self).wf(),
            g >= old(self).gates@.len() ==> r == Err::<(), UsageError>(UsageError::UnknownGate),
            g < old(self).gates@.len() && w >= old(self).wires@.len() ==> r == Err::<(), UsageError>(
                UsageError::UnknownWire,
            ),
            r.is_ok() == (g < old(self).gates@.len() && w < old(self).wires@.len()),
            r.is_ok() ==> final(self).drives@ == old(self).drives@.update(g as int, Some(w)),
            r.is_err() ==> final(self).drives@ == old(self).drives@,
            final(self).gates@ == old(self).gates@,
            final(self).wires@ == old(self).wires@,
            final(self).dirty@ == old(self).dirty@,
    {
        if g >= self.gates.len() {
            return Err(UsageError::UnknownGate);
        }
        if w >= self.wires.len() {
            return Err(UsageError::UnknownWire);
        }
        self.drives.set(g, Some(w));
        proof {
            assert forall|h: int| 0 <= h < self.drives@.len() && #[trigger] self.drives@[h].is_some()
                implies self.drives@[h].unwrap() < self.wires@.len() by {
                if h != g {
                    assert(old(self).drives@[h].is_some());
                }
            }
            assert forall|v: int, j: int| #[trigger] self.has_target(v, j) implies {
                &&& self.target(v, j).logic_block < self.gates@.len()
                &&& self.gates@[self.target(v, j).logic_block as int].ports().contains_key(self.target(v, j).input_key)
            } by {
                assert(old(self).has_target(v, j));
            }
            assert forall|w1: int, j1: int, w2: int, j2: int|
                #[trigger] self.has_target(w1, j1) && #[trigger] self.has_target(w2, j2) && (w1 != w2 || j1 != j2)
                    implies (self.target(w1, j1).logic_block != self.target(w2, j2).logic_block
                        || self.target(w1, j1).input_key != self.target(w2, j2).input_key) by {
                assert(old(self).has_target(w1, j1) && old(self).has_target(w2, j2));
            }
        }
        Ok(())
    }

    /// Puts wire `d` at the back of the dirty queue unless it is already queued.
    fn enqueue(&mut self, d: usize)
        requires
            old(self).wf(),
            d < old(self).wires@.len(),
        ensures
            final(self).wf(),
            final(self).gates@ == old(self).gates@,
            final(self).wires@ == old(self).wires@,
            final(self).drives@ == old(self).drives@,
            final(self).dirty@ == (if old(self).queued@[d as int] { old(self).dirty@ } else { old(self).dirty@.push(d) }),
            final(self).queued@ == old(self).queued@.update(d as int, true),
    {
        if !self.queued[d] {
            let ghost before = *self;
            let ghost od = self.dirty@;
            let ghost oq = self.queued@;
            self.dirty.push_back(d);
            self.queued.set(d, true);
            proof {
                assert(self.dirty@ == od.push(d));
                assert(self.queued@ == oq.update(d as int, true));
                assert(!od.contains(d));
                assert forall|i: int, j: int| 0 <= i < j < self.dirty@.len() implies self.dirty@[i]
                    != self.dirty@[j] by {
                    if j == od.len() {
                        assert(od[i] == self.dirty@[i]);
                    }
                }
                assert(self.dirty@[od.len() as int] == d);
                assert forall|w: usize| w < self.queued@.len() implies (#[trigger] self.queued@[w as int]
                    <==> self.dirty@.contains(w)) by {
                    if w != d {
                        assert(oq[w as int] <==> od.contains(w));
                        if self.dirty@.contains(w) {
                            let i = choose|i: int| 0 <= i < self.dirty@.len() && self.dirty@[i] == w;
                            if i < od.len() {
                                assert(od[i] == w);
                            }
                        }
                        if od.contains(w) {
                            let i = choose|i: int| 0 <= i < od.len() && od[i] == w;
                            assert(self.dirty@[i] == w);
                        }
                    }
                }
                assert forall|i: int| 0 <= i < self.dirty@.len() implies #[trigger] self.dirty@[i] < self.wires@.len() by {
                    if i < od.len() {
                        assert(od[i] < self.wires@.len());
                    }
                }
                Circuit::lemma_frame(&before, self);
            }
        } else {
            assert(self.queued@.update(d as int, true) =~= self.queued@);
            proof {
                Circuit::lemma_frame(old(self), self);
            }
        }
    }

    /// Drives wire `w` with `value` and marks it dirty; reports `UnknownWire`
    /// for an index out of range.
    pub fn drive(&mut self, w: usize, value: LogicState) -> (r: Result<(), UsageError>)
        requires
            old(self).wf(),
        ensures
            final(self).wf(),
            r.is_ok() == (w < old(self).wires@.len()),
            r.is_err() ==> r == Err::<(), UsageError>(UsageError::UnknownWire) && final(self).wires@ == old(self).wires@
                && final(self).dirty@ == old(self).dirty@,
            r.is_ok() ==> {
                &&& final(self).wires@[w as int].state == value
                &&& final(self).dirty@.contains(w)
                &&& final(self).dirty@ == (if old(self).dirty@.contains(w) {
                    old(self).dirty@
                } else {
                    old(self).dirty@.push(w)
                })
            },
            final(self).wires@.len() == old(self).wires@.len(),
            forall|v: int| 0 <= v < old(self).wires@.len() ==> #[trigger] final(self).wires@[v].outputs@
                == old(self).wires@[v].outputs@,
            forall|v: int| 0 <= v < old(self).wires@.len() && v != w ==> #[trigger] final(self).wires@[v].state
                == old(self).wires@[v].state,
            final(self).gates@ == old(self).gates@,
    {
        if w >= self.wires.len() {
            return Err(UsageError::UnknownWire);
        }
        let ghost before = *self;
        self.wires[w].set_state(value);
        proof {
            assert forall|v: int| 0 <= v < before.wires@.len() implies #[trigger] self.wires@[v].outputs@
                == before.wires@[v].outputs@ by {}
            Circuit::lemma_frame(&before, self);
            assert(before.queued@[w as int] == before.dirty@.contains(w));
        }
        self.enqueue(w);
        proof {
            if !before.dirty@.contains(w) {
                assert(self.dirty@[self.dirty@.len() - 1] == w);
            }
        }
        Ok(())
    }

    /// The wire and position of the target that feeds input `key` of gate
    /// `g`, if some wire feeds it.
    pub fn find_target(&self, g: usize, key: DefaultKey) -> (r: Option<(usize, usize)>)
        requires
            self.wf(),
        ensures
            r.is_none() == !self.is_driven(g as int, key),
            r matches Some((w, j)) ==> self.has_target(w as int, j as int) && self.target(w as int, j as int).logic_block
                == g && self.target(w as int, j as int).input_key == key,
    {
        let mut v: usize = 0;
        while v < self.wires.len()
            invariant
                forall|v2: int, j: int| 0 <= v2 < v && #[trigger] self.has_target(v2, j)
                    ==> !(self.target(v2, j).logic_block == g && self.target(v2, j).input_key == key),
            decreases self.wires.len() - v,
        {
            let mut j: usize = 0;
            while j < self.wires[v].outputs.len()
                invariant
                    v < self.wires@.len(),
                    forall|v2: int, j2: int| 0 <= v2 < v && #[trigger] self.has_target(v2, j2)
                        ==> !(self.target(v2, j2).logic_block == g && self.target(v2, j2).input_key == key),
                    forall|j2: int| 0 <= j2 < j && #[trigger] self.has_target(v as int, j2)
                        ==> !(self.target(v as int, j2).logic_block == g && self.target(v as int, j2).input_key == key),
                decreases self.wires@[v as int].outputs@.len() - j,
            {
                let t = self.wires[v].outputs[j];
                if t.logic_block == g && same_key(t.input_key, key) {
                    assert(self.has_target(v as int, j as int));
                    return Some((v, j));
                }
                j = j + 1;
            }
            v = v + 1;
        }
        None
    }

    /// Makes wire `w` feed input `key` of gate `g`. Reports `UnknownWire`,
    /// `UnknownGate`, `UnknownPort` (the handle is not an input of that gate)
    /// or `PortAlreadyDriven` (some wire already feeds that port), in that
    /// order, and then changes nothing.
    pub fn add_target(&mut self, w: usize, g: usize, key: DefaultKey) -> (r: Result<(), UsageError>)
        requires
            old(self).wf(),
        ensures
            final(self).wf(),
            w >= old(self).wires@.len() ==> r == Err::<(), UsageError>(UsageError::UnknownWire),
            w < old(self).wires@.len() && g >= old(self).gates@.len() ==> r == Err::<(), UsageError>(
                UsageError::UnknownGate,
            ),
            w < old(self).wires@.len() && g < old(self).gates@.len() && !old(self).gates@[g as int].ports().contains_key(
                key,
            ) ==> r == Err::<(), UsageError>(UsageError::UnknownPort),
            w < old(self).wires@.len() && g < old(self).gates@.len() && old(self).gates@[g as int].ports().contains_key(key)
                && old(self).is_driven(g as int, key) ==> r == Err::<(), UsageError>(UsageError::PortAlreadyDriven),
            r.is_ok() == (w < old(self).wires@.len() && g < old(self).gates@.len()
                && old(self).gates@[g as int].ports().contains_key(key) && !old(self).is_driven(g as int, key)),
            r.is_ok() ==> final(self).wires@ == old(self).wires@.update(w as int, Wire {
                state: old(self).wires@[w as int].state,
                outputs: final(self).wires@[w as int].outputs,
            }) && final(self).wires@[w as int].outputs@ == old(self).wires@[w as int].outputs@.push(
                WireOutput { logic_block: g, input_key: key },
            ),
            r.is_err() ==> final(self).wires@ == old(self).wires@,
            final(self).gates@ == old(self).gates@,
            final(self).drives@ == old(self).drives@,
            final(self).dirty@ == old(self).dirty@,
    {
        if w >= self.wires.len() {
            return Err(UsageError::UnknownWire);
        }
        if g >= self.gates.len() {
            return Err(UsageError::UnknownGate);
        }
        if self.gates[g].input_state(key).is_none() {
            return Err(UsageError::UnknownPort);
        }
        if self.find_target(g, key).is_some() {
            return Err(UsageError::PortAlreadyDriven);
        }
        assert(!self.is_driven(g as int, key));
        let ghost before = *self;
        let n = self.wires[w].outputs.len();
        self.wires[w].add_output(WireOutput::new(g, key));
        proof {
            let t = WireOutput { logic_block: g, input_key: key };
            assert(self.target(w as int, n as int) == t);
            assert forall|v2: int, j2: int| #[trigger] self.has_target(v2, j2) implies (before.has_target(v2, j2)
                && self.target(v2, j2) == before.target(v2, j2)) || (v2 == w && j2 == n) by {
                if v2 == w && j2 < n {
                    assert(self.wires@[v2].outputs@[j2] == before.wires@[v2].outputs@[j2]);
                }
            }
            assert forall|v2: int, j2: int| #[trigger] self.has_target(v2, j2) implies {
                &&& self.target(v2, j2).logic_block < self.gates@.len()
                &&& self.gates@[self.target(v2, j2).logic_block as int].ports().contains_key(self.target(v2, j2).input_key)
            } by {
                if !(v2 == w && j2 == n) {
                    assert(before.has_target(v2, j2));
                }
            }
            assert forall|w1: int, j1: int, w2: int, j2: int|
                #[trigger] self.has_target(w1, j1) && #[trigger] self.has_target(w2, j2) && (w1 != w2 || j1 != j2)
                    implies (self.target(w1, j1).logic_block != self.target(w2, j2).logic_block
                        || self.target(w1, j1).input_key != self.target(w2, j2).input_key) by {
                if !(w1 == w && j1 == n) && !(w2 == w && j2 == n) {
                    assert(before.has_target(w1, j1) && before.has_target(w2, j2));
                } else if w1 == w && j1 == n {
                    assert(before.has_target(w2, j2));
                } else {
                    assert(before.has_target(w1, j1));
                }
            }
            assert forall|h: int| 0 <= h < self.drives@.len() && #[trigger] self.drives@[h].is_some()
                implies self.drives@[h].unwrap() < self.wires@.len() by {
                assert(before.drives@[h].is_some());
            }
            assert(self.wires@ =~= before.wires@.update(w as int, Wire {
                state: before.wires@[w as int].state,
                outputs: self.wires@[w as int].outputs,
            }));
        }
        Ok(())
    }

    /// Circuit `b` is what delivering `value` to target `t` makes of circuit
    /// `a`: the target gate takes the value on that input (see
    /// `LogicBlock::set_input_post`) and no other gate changes; if its output
    /// changed and it drives a wire, that wire takes the new output and joins
    /// the back of the queue unless it is already queued. Nothing else changes.
    pub open spec fn fed(a: Circuit, b: Circuit, t: WireOutput, value: LogicState) -> bool {
        let g = t.logic_block as int;
        let changed = b.gates@[g].output.state != a.gates@[g].output.state;
        &&& 0 <= g < a.gates@.len()
        &&& a.gates@[g].ports().contains_key(t.input_key)
        &&& a.gates@[g].set_input_post(b.gates@[g], t.input_key, value)
        &&& b.gates@ == a.gates@.update(g, b.gates@[g])
        &&& b.drives@ == a.drives@
        &&& if changed && a.drives@[g].is_some() {
            let d = a.drives@[g].unwrap();
            &&& b.wires@ == a.wires@.update(d as int, Wire { state: b.gates@[g].output.state, outputs: a.wires@[d as int].outputs })
            &&& b.dirty@ == (if a.queued@[d as int] { a.dirty@ } else { a.dirty@.push(d) })
            &&& b.queued@ == a.queued@.update(d as int, true)
        } else {
            &&& b.wires@ == a.wires@
            &&& b.dirty@ == a.dirty@
            &&& b.queued@ == a.queued@
        }
    }

    /// Drives input `key` of gate `g` with `value` directly (a primary
    /// input), passing a changed output on to the wire that `g` drives, as a
    /// wire's delivery does (see `fed`). Returns whether the output of `g`
    /// changed; `UnknownGate` or `UnknownPort` change nothing.
    pub fn set_gate_input(&mut self, g: usize, key: DefaultKey, value: LogicState) -> (r: Result<bool, UsageError>)
        requires
            old(self).wf(),
        ensures
            final(self).wf(),
            g >= old(self).gates@.len() ==> r == Err::<bool, UsageError>(UsageError::UnknownGate) && *final(self)
                == *old(self),
            g < old(self).gates@.len() && !old(self).gates@[g as int].ports().contains_key(key) ==> r == Err::<
                bool,
                UsageError,
            >(UsageError::UnknownPort) && *final(self) == *old(self),
            g < old(self).gates@.len() && old(self).gates@[g as int].ports().contains_key(key) ==> r == Ok::<
                bool,
                UsageError,
            >(final(self).gates@[g as int].output.state != old(self).gates@[g as int].output.state)
                && Circuit::fed(*old(self), *final(self), WireOutput { logic_block: g, input_key: key }, value),
    {
        if g >= self.gates.len() {
            return Err(UsageError::UnknownGate);
        }
        if self.gates[g].input_state(key).is_none() {
            return Err(UsageError::UnknownPort);
        }
        let ghost before = *self;
        let res = self.gates[g].set_input(key, value);
        let ghost after_gate = *self;
        proof {
            assert forall|h: int| 0 <= h < before.gates@.len() implies #[trigger] self.gates@[h].wf() by {
                assert(before.gates@[h].wf());
            }
            assert forall|h: int, k: DefaultKey| 0 <= h < before.gates@.len() && #[trigger] before.gates@[h].ports().contains_key(k)
                implies #[trigger] self.gates@[h].ports().contains_key(k) by {
                if h == g {
                    assert(self.gates@[h].ports().dom() =~= before.gates@[h].ports().dom());
                }
            }
            Circuit::lemma_frame(&before, self);
            assert(self.gates@ == before.gates@.update(g as int, self.gates@[g as int]));
        }
        let changed = match res {
            Ok(c) => c,
            Err(_) => false,
        };
        if changed {
            if let Some(d) = self.drives[g] {
                let out = self.gates[g].get_output();
                let ghost mid = *self;
                proof {
                    assert(self.drives@[g as int].is_some());
                }
                self.wires[d].set_state(out);
                proof {
                    assert forall|v: int| 0 <= v < mid.wires@.len() implies #[trigger] self.wires@[v].outputs@
                        == mid.wires@[v].outputs@ by {}
                    Circuit::lemma_frame(&mid, self);
                    assert(self.wires@ == before.wires@.update(d as int, Wire {
                        state: out,
                        outputs: before.wires@[d as int].outputs,
                    }));
                }
                self.enqueue(d);
            }
        }
        Ok(changed)
    }

    /// Whether port `key` of gate `g` holds what arrives on it when `value`
    /// is delivered, with the inversion it had in circuit `before`.
    pub open spec fn delivered(&self, before: Circuit, g: int, key: DefaultKey, value: LogicState) -> bool {
        self.gates@[g].ports()[key].state == through(before.gates@[g].ports()[key].is_inverted, value)
    }

    /// Circuit `b` is circuit `a` with the front of its dirty queue taken off
    /// and nothing else changed.
    pub open spec fn popped(a: Circuit, b: Circuit) -> bool {
        &&& a.dirty@.len() > 0
        &&& b.gates@ == a.gates@
        &&& b.wires@ == a.wires@
        &&& b.drives@ == a.drives@
        &&& b.dirty@ == a.dirty@.drop_first()
        &&& b.queued@ == a.queued@.update(a.dirty@[0] as int, false)
    }

    /// `s` is the run of one step from `a` to `b`: the front wire `w` is taken
    /// off the queue, then its value as it stood in `a` is delivered to each of
    /// its targets in order (see `fed`), one state of `s` per delivery.
    pub open spec fn stepped_via(a: Circuit, b: Circuit, s: Seq<Circuit>) -> bool {
        let w = a.dirty@[0] as int;
        let n = a.wires@[w].outputs@.len();
        &&& a.dirty@.len() > 0
        &&& s.len() == n + 1
        &&& Circuit::popped(a, s[0])
        &&& s[n as int] == b
        &&& forall|j: int| 0 <= j < n ==> #[trigger] Circuit::fed(s[j], s[j + 1], a.target(w, j), a.wires@[w].state)
    }

    /// Circuit `b` is what one step makes of circuit `a`.
    pub open spec fn stepped(a: Circuit, b: Circuit) -> bool {
        exists|s: Seq<Circuit>| #[trigger] Circuit::stepped_via(a, b, s)
    }

    /// `s` is a run of `k` steps from `a` to `b`.
    pub open spec fn drained_via(a: Circuit, b: Circuit, k: nat, s: Seq<Circuit>) -> bool {
        &&& s.len() == k + 1
        &&& s[0] == a
        &&& s[k as int] == b
        &&& forall|i: int| 0 <= i < k ==> #[trigger] Circuit::stepped(s[i], s[i + 1])
    }

    /// Processes the wire at the front of the dirty queue, if any, and
    /// returns whether there was one. The wire's value, as it stood when the
    /// step began, goes to each of its targets in order; every gate whose
    /// output changed passes its new output to the wire it drives, which
    /// joins the back of the queue unless it is already queued (see `stepped`).
    pub fn step(&mut self) -> (r: bool)
        requires
            old(self).wf(),
        ensures
            final(self).wf(),
            r == (old(self).dirty@.len() > 0),
            final(self).gates@.len() == old(self).gates@.len(),
            final(self).wires@.len() == old(self).wires@.len(),
            final(self).drives@ == old(self).drives@,
            forall|v: int| 0 <= v < old(self).wires@.len() ==> #[trigger] final(self).wires@[v].outputs@
                == old(self).wires@[v].outputs@,
            !r ==> *final(self) == *old(self),
            r ==> Circuit::stepped(*old(self), *final(self)),
            r ==> {
                let w = old(self).dirty@[0] as int;
                &&& final(self).dirty@.len() >= old(self).dirty@.len() - 1
                &&& final(self).dirty@.subrange(0, old(self).dirty@.len() - 1) == old(self).dirty@.drop_first()
                &&& forall|j: int| 0 <= j < old(self).wires@[w].outputs@.len() ==> final(self).delivered(
                    *old(self),
                    #[trigger] old(self).target(w, j).logic_block as int,
                    old(self).target(w, j).input_key,
                    old(self).wires@[w].state,
                )
            },
    {
        if self.dirty.len() == 0 {
            return false;
        }
        let ghost start = *self;
        let w = match self.dirty.pop_front() {
            None => {
                return false;
            },
            Some(w) => w,
        };
        self.queued.set(w, false);
        proof {
            assert(start.dirty@[0] == w);
            assert(self.dirty@ == start.dirty@.drop_first());
            assert forall|i: int| 0 <= i < self.dirty@.len() implies #[trigger] self.dirty@[i] < self.wires@.len() by {
                assert(start.dirty@[i + 1] < start.wires@.len());
            }
            assert forall|v: usize| v < self.queued@.len() implies (#[trigger] self.queued@[v as int]
                <==> self.dirty@.contains(v)) by {
                assert(start.queued@[v as int] <==> start.dirty@.contains(v));
                if v == w {
                    if self.dirty@.contains(v) {
                        let i = choose|i: int| 0 <= i < self.dirty@.len() && self.dirty@[i] == v;
                        assert(start.dirty@[i + 1] == start.dirty@[0]);
                    }
                } else {
                    if start.dirty@.contains(v) {
                        let i = choose|i: int| 0 <= i < start.dirty@.len() && start.dirty@[i] == v;
                        assert(i != 0);
                        assert(self.dirty@[i - 1] == v);
                    }
                    if self.dirty@.contains(v) {
                        let i = choose|i: int| 0 <= i < self.dirty@.len() && self.dirty@[i] == v;
                        assert(start.dirty@[i + 1] == v);
                    }
                }
            }
            assert forall|i: int, j: int| 0 <= i < j < self.dirty@.len() implies self.dirty@[i] != self.dirty@[j] by {
                assert(start.dirty@[i + 1] != start.dirty@[j + 1]);
            }
            Circuit::lemma_frame(&start, self);
        }
        let ghost mut run: Seq<Circuit> = seq![*self];
        let value = self.wires[w].state;
        let n = self.wires[w].outputs.len();
        let mut j: usize = 0;
        while j < n
            invariant
                self.wf(),
                start.wf(),
                start.dirty@.len() > 0,
                w == start.dirty@[0],
                w < self.wires@.len(),
                n == start.wires@[w as int].outputs@.len(),
                value == start.wires@[w as int].state,
                self.gates@.len() == start.gates@.len(),
                self.wires@.len() == start.wires@.len(),
                self.drives@ == start.drives@,
                forall|v: int| 0 <= v < start.wires@.len() ==> #[trigger] self.wires@[v].outputs@
                    == start.wires@[v].outputs@,
                forall|g: int| 0 <= g < start.gates@.len() ==> #[trigger] self.gates@[g].ports().dom()
                    == start.gates@[g].ports().dom(),
                forall|g: int, k: DefaultKey| 0 <= g < start.gates@.len() && #[trigger] start.gates@[g].ports().contains_key(k)
                    ==> #[trigger] self.gates@[g].ports()[k].is_inverted == start.gates@[g].ports()[k].is_inverted,
                forall|j2: int| 0 <= j2 < j ==> #[trigger] self.delivered(
                    start,
                    start.target(w as int, j2).logic_block as int,
                    start.target(w as int, j2).input_key,
                    value,
                ),
                self.dirty@.len() >= start.dirty@.len() - 1,
                self.dirty@.subrange(0, start.dirty@.len() - 1) == start.dirty@.drop_first(),
                j <= n,
                run.len() == j + 1,
                Circuit::popped(start, run[0]),
                run[j as int] == *self,
                forall|j2: int| 0 <= j2 < j ==> #[trigger] Circuit::fed(run[j2], run[j2 + 1], start.target(w as int, j2), value),
            decreases n - j,
        {
            let t = self.wires[w].outputs[j];
            let g = t.logic_block;
            let ghost pre = *self;
            proof {
                assert(start.has_target(w as int, j as int));
                assert(self.has_target(w as int, j as int));
                assert(t == start.target(w as int, j as int));
            }
            let _ = self.set_gate_input(g, t.input_key, value);
            proof {
                assert(Circuit::fed(pre, *self, t, value));
                let gp = pre.gates@[g as int];
                assert(self.gates@[g as int].ports() == gp.ports_after(t.input_key, value));
                assert forall|h: int| 0 <= h < start.gates@.len() implies #[trigger] self.gates@[h].ports().dom()
                    == start.gates@[h].ports().dom() by {
                    assert(pre.gates@[h].ports().dom() == start.gates@[h].ports().dom());
                    if h == g {
                        assert(self.gates@[h].ports().dom() =~= pre.gates@[h].ports().dom());
                    }
                }
                assert forall|h: int, k: DefaultKey| 0 <= h < start.gates@.len() && #[trigger] start.gates@[h].ports().contains_key(k)
                    implies #[trigger] self.gates@[h].ports()[k].is_inverted == start.gates@[h].ports()[k].is_inverted by {
                    assert(pre.gates@[h].ports()[k].is_inverted == start.gates@[h].ports()[k].is_inverted);
                }
                assert forall|v: int| 0 <= v < start.wires@.len() implies #[trigger] self.wires@[v].outputs@
                    == start.wires@[v].outputs@ by {
                    assert(pre.wires@[v].outputs@ == start.wires@[v].outputs@);
                }
                assert forall|j2: int| 0 <= j2 <= j implies #[trigger] self.delivered(
                    start,
                    start.target(w as int, j2).logic_block as int,
                    start.target(w as int, j2).input_key,
                    value,
                ) by {
                    if j2 < j {
                        assert(pre.delivered(start, start.target(w as int, j2).logic_block as int,
                            start.target(w as int, j2).input_key, value));
                        assert(start.has_target(w as int, j2) && start.has_target(w as int, j as int));
                        let t2 = start.target(w as int, j2);
                        assert(start.gates@[t2.logic_block as int].ports().contains_key(t2.input_key));
                    }
                }
                assert(self.dirty@.subrange(0, start.dirty@.len() - 1) =~= pre.dirty@.subrange(
                    0,
                    start.dirty@.len() - 1,
                ));
                let old_run = run;
                run = run.push(*self);
                assert forall|j2: int| 0 <= j2 < j + 1 implies #[trigger] Circuit::fed(run[j2], run[j2 + 1], start.target(w as int, j2), value) by {
                    if j2 < j {
                        assert(run[j2] == old_run[j2] && run[j2 + 1] == old_run[j2 + 1]);
                    }
                }
            }
            j = j + 1;
        }
        proof {
            assert(Circuit::stepped_via(start, *self, run));
        }
        true
    }

    /// Processes dirty wires until none is left or the step limit (ten per
    /// wire) is reached, and reports which of the two ended the drain.
    pub fn drain(&mut self) -> (r: DrainReport)
        requires
            old(self).wf(),
        ensures
            final(self).wf(),
            r.steps <= step_limit(old(self).wires@.len() as int),
            r.settled == (final(self).dirty@.len() == 0),
            !r.settled ==> r.steps == step_limit(old(self).wires@.len() as int),
            exists|run: Seq<Circuit>| #[trigger] Circuit::drained_via(*old(self), *final(self), r.steps as nat, run),
            final(self).gates@.len() == old(self).gates@.len(),
            final(self).wires@.len() == old(self).wires@.len(),
            final(self).drives@ == old(self).drives@,
            forall|v: int| 0 <= v < old(self).wires@.len() ==> #[trigger] final(self).wires@[v].outputs@
                == old(self).wires@[v].outputs@,
    {
        let count = self.wires.len();
        let limit: usize = if count <= usize::MAX / STEPS_PER_WIRE {
            count * STEPS_PER_WIRE
        } else {
            usize::MAX
        };
        assert(limit == step_limit(count as int)) by (nonlinear_arith)
            requires
                count <= usize::MAX / STEPS_PER_WIRE ==> limit == count * STEPS_PER_WIRE,
                count > usize::MAX / STEPS_PER_WIRE ==> limit == usize::MAX,
                STEPS_PER_WIRE == 10,
        ;
        let mut steps: usize = 0;
        let ghost mut run: Seq<Circuit> = seq![*self];
        while steps < limit && self.dirty.len() > 0
            invariant
                self.wf(),
                Circuit::drained_via(*old(self), *self, steps as nat, run),
                steps <= limit,
                limit == step_limit(old(self).wires@.len() as int),
                self.gates@.len() == old(self).gates@.len(),
                self.wires@.len() == old(self).wires@.len(),
                self.drives@ == old(self).drives@,
                forall|v: int| 0 <= v < old(self).wires@.len() ==> #[trigger] self.wires@[v].outputs@
                    == old(self).wires@[v].outputs@,
            decreases limit - steps,
        {
            let ghost before = *self;
            self.step();
            proof {
                let old_run = run;
                run = run.push(*self);
                assert(Circuit::stepped(before, *self));
                assert forall|i: int| 0 <= i < steps + 1 implies #[trigger] Circuit::stepped(run[i], run[i + 1]) by {
                    if i < steps {
                        assert(run[i] == old_run[i] && run[i + 1] == old_run[i + 1]);
                    }
                }
                assert forall|v: int| 0 <= v < old(self).wires@.len() implies #[trigger] self.wires@[v].outputs@
                    == old(self).wires@[v].outputs@ by {
                    assert(before.wires@[v].outputs@ == old(self).wires@[v].outputs@);
                }
            }
            steps = steps + 1;
        }
        proof {
            assert(Circuit::drained_via(*old(self), *self, steps as nat, run));
        }
        DrainReport { settled: self.dirty.len() == 0, steps }
    }

    /// Removes input `key` from gate `g` (see `LogicBlock::remove_input`),
    /// and the wire target that fed it, if any. A handle that is not an input
    /// of that gate changes nothing; an index out of range is `UnknownGate`.
    pub fn remove_input(&mut self, g: usize, key: DefaultKey) -> (r: Result<(), UsageError>)
        requires
            old(self).wf(),
        ensures
            final(self).wf(),
            r.is_ok() == (g < old(self).gates@.len()),
            r.is_err() ==> r == Err::<(), UsageError>(UsageError::UnknownGate) && final(self).gates@ == old(self).gates@
                && final(self).wires@ == old(self).wires@,
            r.is_ok() ==> final(self).gates@[g as int].ports().dom() == old(self).gates@[g as int].ports().dom().remove(key)
                && !final(self).is_driven(g as int, key),
            final(self).gates@.len() == old(self).gates@.len(),
            forall|h: int| 0 <= h < old(self).gates@.len() && h != g ==> final(self).gates@[h] == old(self).gates@[h],
            final(self).wires@.len() == old(self).wires@.len(),
            final(self).drives@ == old(self).drives@,
            final(self).dirty@ == old(self).dirty@,
    {
        if g >= self.gates.len() {
            return Err(UsageError::UnknownGate);
        }
        if let Some((w, j)) = self.find_target(g, key) {
            let ghost before = *self;
            self.wires[w].remove_output(j);
            proof {
                assert forall|v: int, i: int| #[trigger] self.has_target(v, i) implies {
                    let i2 = if v == w && i >= j { i + 1 } else { i };
                    &&& before.has_target(v, i2)
                    &&& self.target(v, i) == before.target(v, i2)
                    &&& !(v == w && i2 == j)
                } by {
                    if v != w {
                        assert(self.wires@[v] == before.wires@[v]);
                    }
                }
                assert forall|v: int, i: int| #[trigger] self.has_target(v, i) implies {
                    &&& self.target(v, i).logic_block < self.gates@.len()
                    &&& self.gates@[self.target(v, i).logic_block as int].ports().contains_key(self.target(v, i).input_key)
                } by {
                    let i2 = if v == w && i >= j { i + 1 } else { i };
                    assert(before.has_target(v, i2));
                }
                assert forall|w1: int, j1: int, w2: int, j2: int|
                    #[trigger] self.has_target(w1, j1) && #[trigger] self.has_target(w2, j2) && (w1 != w2 || j1 != j2)
                        implies (self.target(w1, j1).logic_block != self.target(w2, j2).logic_block
                            || self.target(w1, j1).input_key != self.target(w2, j2).input_key) by {
                    let i1 = if w1 == w && j1 >= j { j1 + 1 } else { j1 };
                    let i2 = if w2 == w && j2 >= j { j2 + 1 } else { j2 };
                    assert(before.has_target(w1, i1) && before.has_target(w2, i2));
                }
                assert forall|h: int| 0 <= h < self.drives@.len() && #[trigger] self.drives@[h].is_some()
                    implies self.drives@[h].unwrap() < self.wires@.len() by {
                    assert(before.drives@[h].is_some());
                }
                assert(!self.is_driven(g as int, key)) by {
                    if self.is_driven(g as int, key) {
                        let (v, i) = choose|v: int, i: int| #[trigger] self.has_target(v, i)
                            && self.target(v, i).logic_block == g && self.target(v, i).input_key == key;
                        let i2 = if v == w && i >= j { i + 1 } else { i };
                        assert(before.has_target(v, i2));
                        assert(before.has_target(w as int, j as int));
                    }
                }
            }
        }
        let ghost before = *self;
        self.gates[g].remove_input(key);
        proof {
            assert forall|v: int, i: int| #[trigger] self.has_target(v, i) implies {
                &&& self.target(v, i).logic_block < self.gates@.len()
                &&& self.gates@[self.target(v, i).logic_block as int].ports().contains_key(self.target(v, i).input_key)
            } by {
                assert(before.has_target(v, i));
                assert(self.wires@[v] == before.wires@[v]);
            }
            assert forall|w1: int, j1: int, w2: int, j2: int|
                #[trigger] self.has_target(w1, j1) && #[trigger] self.has_target(w2, j2) && (w1 != w2 || j1 != j2)
                    implies (self.target(w1, j1).logic_block != self.target(w2, j2).logic_block
                        || self.target(w1, j1).input_key != self.target(w2, j2).input_key) by {
                assert(before.has_target(w1, j1) && before.has_target(w2, j2));
            }
            assert forall|h: int| 0 <= h < self.gates@.len() implies #[trigger] self.gates@[h].wf() by {
                assert(before.gates@[h].wf());
            }
            assert forall|h: int| 0 <= h < self.drives@.len() && #[trigger] self.drives@[h].is_some()
                implies self.drives@[h].unwrap() < self.wires@.len() by {
                assert(before.drives@[h].is_some());
            }
            assert(!self.is_driven(g as int, key)) by {
                if self.is_driven(g as int, key) {
                    let (v, i) = choose|v: int, i: int| #[trigger] self.has_target(v, i)
                        && self.target(v, i).logic_block == g && self.target(v, i).input_key == key;
                    assert(before.has_target(v, i));
                }
            }
        }
        Ok(())
    }

    /// The output of gate `g`, if there is such a gate.
    pub fn gate_output(&self, g: usize) -> (r: Option<LogicState>)
        ensures
            r == (if g < self.gates@.len() { Some(self.gates@[g as int].output.state) } else { None::<LogicState> }),
    {
        if g < self.gates.len() {
            Some(self.gates[g].get_output())
        } else {
            None
        }
    }

    /// The value on input `key` of gate `g`, if both exist.
    pub fn input_state(&self, g: usize, key: DefaultKey) -> (r: Option<LogicState>)
        ensures
            r == (if g < self.gates@.len() && self.gates@[g as int].ports().contains_key(key) {
                Some(self.gates@[g as int].ports()[key].state)
            } else {
                None::<LogicState>
            }),
    {
        if g < self.gates.len() {
            self.gates[g].input_state(key)
        } else {
            None
        }
    }

    /// The value on wire `w`, if there is such a wire.
    pub fn wire_state(&self, w: usize) -> (r: Option<LogicState>)
        ensures
            r == (if w < self.wires@.len() { Some(self.wires@[w as int].state) } else { None::<LogicState> }),
    {
        if w < self.wires.len() {
            Some(self.wires[w].get_state())
        } else {
            None
        }
    }

    /// The number of wires waiting to be processed.
    pub fn pending(&self) -> (r: usize)
        ensures
            r == self.dirty@.len(),
    {
        self.dirty.len()
    }
}

} // verus!
