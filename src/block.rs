use vstd::prelude::*;
use slotmap::DefaultKey;
use crate::state::{LogicState, through, from_bool};
use crate::port::LogicBlockPort;
use crate::slots::{PortMap, port_map, new_port_map, insert_port, remove_port, get_port, put_port, port_count, port_keys};
use crate::cache::{LogicBlockCache, MAX_CACHE_INPUTS, bit, recorded, lemma_recorded_bits, lemma_zero_bits};

verus! {

/// The boolean function a gate computes. Both kinds read `INVALID` like
/// `LOW`: only `HIGH` inputs count, so the result depends on which inputs are
/// `HIGH` and nothing else, which is exactly what the cache key records.
#[derive(Debug, Clone, Copy, PartialEq, Eq, Structural)]
pub enum GateKind {
    /// `HIGH` when every input is `HIGH` (and so with no inputs at all).
    And,
    /// `HIGH` when some input is `HIGH`.
    Or,
}

/// A usage error: the caller named something that does not exist or may not
/// be used that way.
#[derive(Debug, Clone, Copy, PartialEq, Eq, Structural)]
pub enum UsageError {
    /// The port handle does not belong to this gate.
    UnknownPort,
    /// No gate has this index.
    UnknownGate,
    /// No wire has this index.
    UnknownWire,
    /// Another wire already drives the port.
    PortAlreadyDriven,
}

/// Whether a gate of this kind is true on these input values.
pub open spec fn kind_holds(kind: GateKind, ports: Map<DefaultKey, LogicBlockPort>) -> bool {
    match kind {
        GateKind::And => forall|k: DefaultKey| #[trigger] ports.contains_key(k) ==> ports[k].state == LogicState::HIGH,
        GateKind::Or => exists|k: DefaultKey| #[trigger] ports.contains_key(k) && ports[k].state == LogicState::HIGH,
    }
}

/// The function of a gate of this kind on these input values, before output inversion.
pub open spec fn kind_value(kind: GateKind, ports: Map<DefaultKey, LogicBlockPort>) -> LogicState {
    from_bool(kind_holds(kind, ports))
}

/// The function of a gate of this kind, read off a cache key, given each port's slot.
pub open spec fn mask_holds(kind: GateKind, mask: u32, ports: Map<DefaultKey, LogicBlockPort>) -> bool {
    match kind {
        GateKind::And => forall|k: DefaultKey| #[trigger] ports.contains_key(k) ==> bit(mask, ports[k].input_num as int),
        GateKind::Or => exists|k: DefaultKey| #[trigger] ports.contains_key(k) && bit(mask, ports[k].input_num as int),
    }
}

/// Same keys, and each port keeps its slot.
pub open spec fn same_slots(a: Map<DefaultKey, LogicBlockPort>, b: Map<DefaultKey, LogicBlockPort>) -> bool {
    &&& a.dom() == b.dom()
    &&& forall|k: DefaultKey| #[trigger] a.contains_key(k) ==> a[k].input_num == b[k].input_num
}

/// A gate: input ports under stable handles, one output port, the function of
/// its kind, and a cache of outputs by input combination.
pub struct LogicBlock {
    pub kind: GateKind,
    pub inputs: PortMap,
    pub output: LogicBlockPort,
    pub cache: LogicBlockCache,
    /// How many times this gate's function has been computed rather than read
    /// from the cache (saturating).
    pub evaluations: u64,
}

impl LogicBlock {
    /// A gate as `new` makes it.
    pub open spec fn is_new(&self, kind: GateKind) -> bool {
        &&& self.wf()
        &&& self.kind == kind
        &&& self.ports().is_empty()
        &&& self.output == LogicBlockPort::spec_new()
        &&& self.cache.cache_valid
        &&& self.cache.input_mask == 0
        &&& self.cache.output_cache@.is_empty()
        &&& self.evaluations == 0
    }

    /// The input ports by handle.
    pub open spec fn ports(&self) -> Map<DefaultKey, LogicBlockPort> {
        port_map(self.inputs)
    }

    /// This gate's function on its current inputs, before output inversion.
    pub open spec fn computed(&self) -> LogicState {
        kind_value(self.kind, self.ports())
    }

    /// Whether the cache holds an entry for the current input combination.
    pub open spec fn cache_hit(&self) -> bool {
        self.cache.cache_valid && self.cache.output_cache@.contains_key(self.cache.input_mask)
    }

    /// Slots are distinct and below the input count while the cache is enabled.
    pub open spec fn slots_ok(&self) -> bool {
        forall|k1: DefaultKey, k2: DefaultKey|
            #[trigger] self.ports().contains_key(k1) && #[trigger] self.ports().contains_key(k2) && k1 != k2
                ==> self.ports()[k1].input_num != self.ports()[k2].input_num
    }

    /// The cache key has bit `n` set exactly when the input in slot `n` is `HIGH`.
    pub open spec fn key_ok(&self) -> bool {
        forall|i: int| #[trigger] bit(self.cache.input_mask, i) <==> exists|k: DefaultKey|
            #[trigger] self.ports().contains_key(k) && self.ports()[k].input_num == i
                && self.ports()[k].state == LogicState::HIGH
    }

    /// Every stored entry is this gate's function on the combination of its key.
    pub open spec fn entries_ok(&self) -> bool {
        forall|m: u32| #[trigger] self.cache.output_cache@.contains_key(m)
            ==> self.cache.output_cache@[m] == from_bool(mask_holds(self.kind, m, self.ports()))
    }

    /// This gate's invariant.
    pub open spec fn wf(&self) -> bool {
        &&& self.ports().dom().finite()
        &&& self.cache.wf()
        &&& self.cache.cache_valid == (self.ports().len() <= MAX_CACHE_INPUTS)
        &&& self.cache.cache_valid ==> {
            &&& self.slots_ok()
            &&& forall|k: DefaultKey| #[trigger] self.ports().contains_key(k)
                ==> self.ports()[k].input_num < self.ports().len()
            &&& self.key_ok()
            &&& self.entries_ok()
        }
    }

    /// Reading the function off the key of the current combination gives the
    /// function of the current inputs.
    proof fn lemma_mask_matches(&self)
        requires
            self.wf(),
            self.cache.cache_valid,
        ensures
            mask_holds(self.kind, self.cache.input_mask, self.ports()) == kind_holds(self.kind, self.ports()),
    {
        let ports = self.ports();
        let m = self.cache.input_mask;
        match self.kind {
            GateKind::And => {
                if mask_holds(self.kind, m, ports) {
                    assert forall|k: DefaultKey| #[trigger] ports.contains_key(k) implies ports[k].state
                        == LogicState::HIGH by {
                        assert(bit(m, ports[k].input_num as int));
                        let k2 = choose|k2: DefaultKey| #[trigger] ports.contains_key(k2)
                            && ports[k2].input_num == ports[k].input_num as int && ports[k2].state
                            == LogicState::HIGH;
                        if k2 != k {
                            assert(ports.contains_key(k) && ports.contains_key(k2));
                        }
                    }
                }
                if kind_holds(self.kind, ports) {
                    assert forall|k: DefaultKey| #[trigger] ports.contains_key(k) implies bit(
                        m,
                        ports[k].input_num as int,
                    ) by {
                        assert(ports.contains_key(k) && ports[k].input_num == ports[k].input_num as int
                            && ports[k].state == LogicState::HIGH);
                    }
                }
            },
            GateKind::Or => {
                if mask_holds(self.kind, m, ports) {
                    let k = choose|k: DefaultKey| #[trigger] ports.contains_key(k) && bit(m, ports[k].input_num as int);
                    let k2 = choose|k2: DefaultKey| #[trigger] ports.contains_key(k2)
                        && ports[k2].input_num == ports[k].input_num as int && ports[k2].state == LogicState::HIGH;
                    assert(ports.contains_key(k2));
                }
                if kind_holds(self.kind, ports) {
                    let k = choose|k: DefaultKey| #[trigger] ports.contains_key(k) && ports[k].state == LogicState::HIGH;
                    assert(ports.contains_key(k) && ports[k].input_num == ports[k].input_num as int
                        && ports[k].state == LogicState::HIGH);
                    assert(bit(m, ports[k].input_num as int));
                }
            },
        }
    }

    /// The function read off any key depends on the ports' slots alone.
    proof fn lemma_mask_same_slots(kind: GateKind, a: Map<DefaultKey, LogicBlockPort>, b: Map<DefaultKey, LogicBlockPort>)
        requires
            same_slots(a, b),
        ensures
            forall|m: u32| #[trigger] mask_holds(kind, m, a) == mask_holds(kind, m, b),
    {
        assert forall|m: u32| #[trigger] mask_holds(kind, m, a) == mask_holds(kind, m, b) by {
            match kind {
                GateKind::And => {
                    if mask_holds(kind, m, a) {
                        assert forall|k: DefaultKey| #[trigger] b.contains_key(k) implies bit(m, b[k].input_num as int) by {
                            assert(a.contains_key(k));
                        }
                    }
                    if mask_holds(kind, m, b) {
                        assert forall|k: DefaultKey| #[trigger] a.contains_key(k) implies bit(m, a[k].input_num as int) by {
                            assert(b.contains_key(k));
                        }
                    }
                },
                GateKind::Or => {
                    if mask_holds(kind, m, a) {
                        let k = choose|k: DefaultKey| #[trigger] a.contains_key(k) && bit(m, a[k].input_num as int);
                        assert(b.contains_key(k));
                    }
                    if mask_holds(kind, m, b) {
                        let k = choose|k: DefaultKey| #[trigger] b.contains_key(k) && bit(m, b[k].input_num as int);
                        assert(a.contains_key(k));
                    }
                },
            }
        }
    }
}


/// `HIGH` when every input is `HIGH`, else `LOW`.
pub fn logic_and_fn(inputs: &PortMap) -> (r: LogicState)
    ensures
        r == kind_value(GateKind::And, port_map(*inputs)),
{
    let keys = port_keys(inputs);
    let mut i: usize = 0;
    while i < keys.len()
        invariant
            0 <= i <= keys.len(),
            forall|k: DefaultKey| port_map(*inputs).contains_key(k) <==> keys@.contains(k),
            forall|j: int| 0 <= j < i ==> #[trigger] port_map(*inputs)[keys@[j]].state == LogicState::HIGH,
        decreases keys.len() - i,
    {
        let p = get_port(inputs, keys[i]);
        assert(keys@.contains(keys@[i as int]));
        if let Some(port) = p {
            if port.state != LogicState::HIGH {
                assert(port_map(*inputs).contains_key(keys@[i as int]));
                return LogicState::LOW;
            }
        }
        i = i + 1;
    }
    assert forall|k: DefaultKey| #[trigger] port_map(*inputs).contains_key(k) implies port_map(
        *inputs,
    )[k].state == LogicState::HIGH by {
        assert(keys@.contains(k));
        let j = choose|j: int| 0 <= j < keys@.len() && keys@[j] == k;
        assert(port_map(*inputs)[keys@[j]].state == LogicState::HIGH);
    }
    LogicState::HIGH
}

/// `HIGH` when some input is `HIGH`, else `LOW`.
pub fn logic_or_fn(inputs: &PortMap) -> (r: LogicState)
    ensures
        r == kind_value(GateKind::Or, port_map(*inputs)),
{
    let keys = port_keys(inputs);
    let mut i: usize = 0;
    while i < keys.len()
        invariant
            0 <= i <= keys.len(),
            forall|k: DefaultKey| port_map(*inputs).contains_key(k) <==> keys@.contains(k),
            forall|j: int| 0 <= j < i ==> #[trigger] port_map(*inputs)[keys@[j]].state != LogicState::HIGH,
        decreases keys.len() - i,
    {
        let p = get_port(inputs, keys[i]);
        assert(keys@.contains(keys@[i as int]));
        if let Some(port) = p {
            if port.state == LogicState::HIGH {
                assert(port_map(*inputs).contains_key(keys@[i as int]));
                return LogicState::HIGH;
            }
        }
        i = i + 1;
    }
    assert forall|k: DefaultKey| #[trigger] port_map(*inputs).contains_key(k) implies port_map(
        *inputs,
    )[k].state != LogicState::HIGH by {
        assert(keys@.contains(k));
        let j = choose|j: int| 0 <= j < keys@.len() && keys@[j] == k;
        assert(port_map(*inputs)[keys@[j]].state != LogicState::HIGH);
    }
    LogicState::LOW
}

impl LogicBlock {
    /// A gate of the given kind with no inputs, a `LOW`, non-inverted output
    /// and an enabled, empty cache.
    pub fn new(kind: GateKind) -> (r: LogicBlock)
        ensures
            r.is_new(kind),
    {
        let r = LogicBlock {
            kind,
            inputs: new_port_map(),
            output: LogicBlockPort::new(),
            cache: LogicBlockCache::new(),
            evaluations: 0,
        };
        assert(r.ports().dom() =~= Set::<DefaultKey>::empty());
        proof { lemma_zero_bits(); }
        r
    }

    /// This gate's function on the current inputs, computed without the cache.
    fn compute(&self) -> (r: LogicState)
        ensures
            r == self.computed(),
    {
        match self.kind {
            GateKind::And => logic_and_fn(&self.inputs),
            GateKind::Or => logic_or_fn(&self.inputs),
        }
    }

    /// Re-evaluates this gate: reads the cache first and computes the function
    /// only on a miss, storing the result. The output port receives the
    /// result through its inversion, and that output is returned.
    pub fn update(&mut self) -> (r: LogicState)
        requires
            old(self).wf(),
        ensures
            final(self).wf(),
            r == final(self).output.state,
            final(self).output == (LogicBlockPort {
                state: through(old(self).output.is_inverted, old(self).computed()),
                ..old(self).output
            }),
            final(self).kind == old(self).kind,
            final(self).ports() == old(self).ports(),
            final(self).cache.cache_valid == old(self).cache.cache_valid,
            final(self).cache.input_mask == old(self).cache.input_mask,
            final(self).cache.output_cache@ == (if old(self).cache.cache_valid {
                old(self).cache.output_cache@.insert(old(self).cache.input_mask, old(self).computed())
            } else {
                old(self).cache.output_cache@
            }),
            final(self).evaluations == (if old(self).cache_hit() || old(self).evaluations == u64::MAX {
                old(self).evaluations
            } else {
                (old(self).evaluations + 1) as u64
            }),
    {
        let ghost before = *self;
        let value: LogicState;
        match self.cache.get_cached_output() {
            Some(v) => {
                proof { self.lemma_mask_matches(); }
                assert(self.cache.output_cache@.insert(self.cache.input_mask, v) =~= self.cache.output_cache@);
                value = v;
            },
            None => {
                value = self.compute();
                if self.evaluations < u64::MAX {
                    self.evaluations = self.evaluations + 1;
                }
                proof {
                    if before.cache.cache_valid {
                        before.lemma_mask_matches();
                    }
                }
                self.cache.update_cache(value);
            },
        }
        self.output.set_state(value);
        self.output.state
    }

    /// Registers the inputs with the cache again: every input goes back to
    /// `LOW`, each gets a fresh slot, the cache is cleared, and it is enabled
    /// exactly when the input count is within the ceiling.
    fn update_cache(&mut self)
        requires
            old(self).ports().dom().finite(),
        ensures
            final(self).wf(),
            final(self).kind == old(self).kind,
            final(self).output == old(self).output,
            final(self).evaluations == old(self).evaluations,
            final(self).ports().dom() == old(self).ports().dom(),
            forall|k: DefaultKey| #[trigger] final(self).ports().contains_key(k) ==> final(self).ports()[k].state
                == LogicState::LOW && final(self).ports()[k].is_inverted == old(self).ports()[k].is_inverted,
            final(self).cache.input_mask == 0,
            final(self).cache.output_cache@.is_empty(),
            final(self).cache.cache_valid == (old(self).ports().len() <= MAX_CACHE_INPUTS),
    {
        let ghost before = self.ports();
        let n = port_count(&self.inputs);
        self.cache.reset_cache(n);
        let keys = port_keys(&self.inputs);
        proof {
            assert(keys@.to_set() =~= before.dom());
            keys@.unique_seq_to_set();
        }
        let mut i: usize = 0;
        while i < keys.len()
            invariant
                0 <= i <= keys.len(),
                keys.len() == n,
                n == before.len(),
                keys@.no_duplicates(),
                forall|k: DefaultKey| before.contains_key(k) <==> keys@.contains(k),
                self.ports().dom() == before.dom(),
                forall|j: int| 0 <= j < i ==> #[trigger] self.ports()[keys@[j]] == (LogicBlockPort {
                    state: LogicState::LOW,
                    is_inverted: before[keys@[j]].is_inverted,
                    input_num: j as usize,
                }),
                forall|j: int| i <= j < keys.len() ==> #[trigger] self.ports()[keys@[j]] == before[keys@[j]],
                self.kind == old(self).kind,
                self.output == old(self).output,
                self.evaluations == old(self).evaluations,
                self.cache.wf(),
                self.cache.input_mask == 0,
                self.cache.output_cache@.is_empty(),
                self.cache.cache_valid == (n <= MAX_CACHE_INPUTS),
            decreases keys.len() - i,
        {
            let k = keys[i];
            assert(keys@.contains(k));
            let p = get_port(&self.inputs, k);
            if let Some(port) = p {
                let fresh = LogicBlockPort { state: LogicState::LOW, is_inverted: port.is_inverted, input_num: i };
                put_port(&mut self.inputs, k, fresh);
            }
            assert forall|j: int| 0 <= j < keys.len() && j != i implies keys@[j] != k by {}
            i = i + 1;
        }
        proof {
            let ports = self.ports();
            assert forall|k: DefaultKey| #[trigger] ports.contains_key(k) implies exists|j: int|
                0 <= j < keys.len() && keys@[j] == k && ports[k].input_num == j by {
                assert(keys@.contains(k));
                let j = choose|j: int| 0 <= j < keys@.len() && keys@[j] == k;
                assert(ports[keys@[j]].input_num == j);
            }
            assert forall|k: DefaultKey| #[trigger] ports.contains_key(k) implies ports[k].state
                == LogicState::LOW && ports[k].is_inverted == before[k].is_inverted && ports[k].input_num
                < ports.len() by {
                let j = choose|j: int| 0 <= j < keys.len() && keys@[j] == k && ports[k].input_num == j;
                assert(ports[keys@[j]].state == LogicState::LOW);
            }
            assert forall|k1: DefaultKey, k2: DefaultKey|
                #[trigger] ports.contains_key(k1) && #[trigger] ports.contains_key(k2) && k1 != k2
                    implies ports[k1].input_num != ports[k2].input_num by {
                let j1 = choose|j: int| 0 <= j < keys.len() && keys@[j] == k1 && ports[k1].input_num == j;
                let j2 = choose|j: int| 0 <= j < keys.len() && keys@[j] == k2 && ports[k2].input_num == j;
            }
            lemma_zero_bits();
        }
    }

    /// Adds an input port (`LOW`, not inverted) and returns its handle. The
    /// inputs are registered with the cache again (see `update_cache`).
    pub fn add_input(&mut self) -> (r: DefaultKey)
        requires
            old(self).wf(),
            old(self).ports().len() < 0xFFFF_FFFE,
        ensures
            final(self).wf(),
            !old(self).ports().contains_key(r),
            final(self).ports().dom() == old(self).ports().dom().insert(r),
            forall|k: DefaultKey| #[trigger] final(self).ports().contains_key(k) ==> final(self).ports()[k].state
                == LogicState::LOW,
            forall|k: DefaultKey| #[trigger] old(self).ports().contains_key(k) ==> final(self).ports()[k].is_inverted
                == old(self).ports()[k].is_inverted,
            !final(self).ports()[r].is_inverted,
            final(self).kind == old(self).kind,
            final(self).output == old(self).output,
            final(self).evaluations == old(self).evaluations,
            final(self).cache.input_mask == 0,
            final(self).cache.output_cache@.is_empty(),
            final(self).cache.cache_valid == (old(self).ports().len() + 1 <= MAX_CACHE_INPUTS),
    {
        let ghost before = self.ports();
        let key = insert_port(&mut self.inputs, LogicBlockPort::new());
        let ghost mid = self.ports();
        assert(mid[key] == LogicBlockPort::spec_new());
        assert forall|k: DefaultKey| #[trigger] before.contains_key(k) implies mid[k] == before[k] by {
            assert(k != key);
        }
        assert(mid.dom().finite());
        self.update_cache();
        assert(self.ports().contains_key(key));
        assert forall|k: DefaultKey| #[trigger] before.contains_key(k) implies self.ports()[k].is_inverted
            == before[k].is_inverted by {
            assert(self.ports().contains_key(k));
        }
        key
    }

    /// Removes the input port under `key` and registers the rest with the
    /// cache again; a handle that is not an input of this gate changes nothing.
    pub fn remove_input(&mut self, key: DefaultKey)
        requires
            old(self).wf(),
        ensures
            final(self).wf(),
            final(self).ports().dom() == old(self).ports().dom().remove(key),
            final(self).kind == old(self).kind,
            final(self).output == old(self).output,
            final(self).evaluations == old(self).evaluations,
            !old(self).ports().contains_key(key) ==> final(self).ports() == old(self).ports() && final(self).cache
                == old(self).cache,
            old(self).ports().contains_key(key) ==> {
                &&& forall|k: DefaultKey| #[trigger] final(self).ports().contains_key(k)
                    ==> final(self).ports()[k].state == LogicState::LOW
                        && final(self).ports()[k].is_inverted == old(self).ports()[k].is_inverted
                &&& final(self).cache.input_mask == 0
                &&& final(self).cache.output_cache@.is_empty()
                &&& final(self).cache.cache_valid == (old(self).ports().len() - 1 <= MAX_CACHE_INPUTS)
            },
    {
        let ghost before = self.ports();
        let removed = remove_port(&mut self.inputs, key);
        if removed.is_some() {
            self.update_cache();
        } else {
            assert(self.ports().dom() =~= before.dom().remove(key));
            assert(self.ports() =~= before);
        }
    }

    /// The ports after `value` arrives on the input under `key`.
    pub open spec fn ports_after(&self, key: DefaultKey, value: LogicState) -> Map<DefaultKey, LogicBlockPort> {
        self.ports().insert(key, LogicBlockPort {
            state: through(self.ports()[key].is_inverted, value),
            ..self.ports()[key]
        })
    }

    /// The cache key after `value` arrives on the input under `key`.
    pub open spec fn mask_after(&self, key: DefaultKey, value: LogicState) -> u32 {
        if self.cache.cache_valid {
            recorded(
                self.cache.input_mask,
                self.ports()[key].input_num as int,
                through(self.ports()[key].is_inverted, value) == LogicState::HIGH,
            )
        } else {
            self.cache.input_mask
        }
    }

    /// What `set_input(key, value)` makes of this gate, `key` being one of its
    /// inputs: the port takes the value through its inversion, the cache key
    /// follows, the entry for the new key is the function's value (stored on a
    /// miss, already there on a hit), and the output is that value through
    /// the output inversion.
    pub open spec fn set_input_post(&self, new: LogicBlock, key: DefaultKey, value: LogicState) -> bool {
        let ports = self.ports_after(key, value);
        let mask = self.mask_after(key, value);
        let hit = self.cache.cache_valid && self.cache.output_cache@.contains_key(mask);
        &&& new.wf()
        &&& new.kind == self.kind
        &&& new.cache.cache_valid == self.cache.cache_valid
        &&& new.ports() == ports
        &&& new.output == (LogicBlockPort {
            state: through(self.output.is_inverted, kind_value(self.kind, ports)),
            ..self.output
        })
        &&& new.cache.input_mask == mask
        &&& new.cache.output_cache@ == (if self.cache.cache_valid {
            self.cache.output_cache@.insert(mask, kind_value(self.kind, ports))
        } else {
            self.cache.output_cache@
        })
        &&& new.evaluations == (if hit || self.evaluations == u64::MAX {
            self.evaluations
        } else {
            (self.evaluations + 1) as u64
        })
    }

    /// Drives the input under `key` with `value`: the port stores it through
    /// its inversion, the cache key follows, and this gate is re-evaluated.
    /// Returns whether the output changed, or `UnknownPort` (and changes
    /// nothing) when the handle is not an input of this gate.
    pub fn set_input(&mut self, key: DefaultKey, value: LogicState) -> (r: Result<bool, UsageError>)
        requires
            old(self).wf(),
        ensures
            final(self).wf(),
            final(self).kind == old(self).kind,
            final(self).cache.cache_valid == old(self).cache.cache_valid,
            !old(self).ports().contains_key(key) ==> {
                &&& r == Err::<bool, UsageError>(UsageError::UnknownPort)
                &&& final(self).ports() == old(self).ports()
                &&& final(self).output == old(self).output
                &&& final(self).cache == old(self).cache
                &&& final(self).evaluations == old(self).evaluations
            },
            old(self).ports().contains_key(key) ==> old(self).set_input_post(*final(self), key, value) && r == Ok::<
                bool,
                UsageError,
            >(final(self).output.state != old(self).output.state),
    {
        let p = get_port(&self.inputs, key);
        let port = match p {
            None => {
                return Err(UsageError::UnknownPort);
            },
            Some(port) => port,
        };
        let ghost before = *self;
        let ghost old_ports = self.ports();
        let mut changed = port;
        changed.set_state(value);
        if self.cache.cache_valid {
            assert(old_ports.contains_key(key));
        }
        self.cache.set_input(port.input_num, changed.state);
        put_port(&mut self.inputs, key, changed);
        proof {
            let ports = self.ports();
            assert(ports == before.ports_after(key, value));
            assert(same_slots(ports, old_ports)) by {
                assert(ports.dom() =~= old_ports.dom());
            }
            assert(ports.len() == old_ports.len()) by {
                assert(ports.dom() =~= old_ports.dom());
            }
            LogicBlock::lemma_mask_same_slots(self.kind, ports, old_ports);
            if self.cache.cache_valid {
                let slot = port.input_num as int;
                let high = changed.state == LogicState::HIGH;
                lemma_recorded_bits(before.cache.input_mask, slot, high);
                assert forall|k1: DefaultKey, k2: DefaultKey|
                    #[trigger] ports.contains_key(k1) && #[trigger] ports.contains_key(k2) && k1 != k2
                        implies ports[k1].input_num != ports[k2].input_num by {
                    assert(old_ports.contains_key(k1) && old_ports.contains_key(k2));
                }
                assert forall|k: DefaultKey| #[trigger] ports.contains_key(k)
                    implies ports[k].input_num < ports.len() by {
                    assert(old_ports.contains_key(k));
                }
                assert forall|i: int| #[trigger] bit(self.cache.input_mask, i) <==> exists|k: DefaultKey|
                    #[trigger] ports.contains_key(k) && ports[k].input_num == i
                        && ports[k].state == LogicState::HIGH by {
                    if i == slot {
                        if high {
                            assert(ports.contains_key(key) && ports[key].input_num == i
                                && ports[key].state == LogicState::HIGH);
                        } else {
                            if exists|k: DefaultKey| #[trigger] ports.contains_key(k) && ports[k].input_num == i
                                && ports[k].state == LogicState::HIGH {
                                let k = choose|k: DefaultKey| #[trigger] ports.contains_key(k)
                                    && ports[k].input_num == i && ports[k].state == LogicState::HIGH;
                                if k != key {
                                    assert(old_ports.contains_key(k) && old_ports.contains_key(key));
                                }
                            }
                        }
                    } else {
                        if bit(before.cache.input_mask, i) {
                            let k = choose|k: DefaultKey| #[trigger] old_ports.contains_key(k)
                                && old_ports[k].input_num == i && old_ports[k].state == LogicState::HIGH;
                            assert(ports.contains_key(k) && ports[k].input_num == i
                                && ports[k].state == LogicState::HIGH);
                        }
                        if exists|k: DefaultKey| #[trigger] ports.contains_key(k) && ports[k].input_num == i
                            && ports[k].state == LogicState::HIGH {
                            let k = choose|k: DefaultKey| #[trigger] ports.contains_key(k)
                                && ports[k].input_num == i && ports[k].state == LogicState::HIGH;
                            assert(old_ports.contains_key(k) && old_ports[k].input_num == i
                                && old_ports[k].state == LogicState::HIGH);
                        }
                    }
                }
                assert(self.key_ok());
                assert(self.entries_ok());
            }
        }
        let previous = self.output.state;
        let now = self.update();
        Ok(now != previous)
    }

    /// The output value last set, without re-evaluating.
    pub fn get_output(&self) -> (r: LogicState)
        ensures
            r == self.output.state,
    {
        self.output.state
    }

    /// Sets whether the output is inverted (turning AND into NAND, OR into
    /// NOR); takes effect at the next evaluation.
    pub fn invert_output(&mut self, inverted: bool)
        requires
            old(self).wf(),
        ensures
            final(self).wf(),
            final(self).output == (LogicBlockPort { is_inverted: inverted, ..old(self).output }),
            final(self).kind == old(self).kind,
            final(self).ports() == old(self).ports(),
            final(self).cache == old(self).cache,
            final(self).evaluations == old(self).evaluations,
    {
        self.output.invert(inverted);
    }

    /// The number of inputs.
    pub fn num_inputs(&self) -> (r: usize)
        ensures
            r == self.ports().len(),
    {
        port_count(&self.inputs)
    }

    /// The value stored on the input under `key`, if it is an input of this gate.
    pub fn input_state(&self, key: DefaultKey) -> (r: Option<LogicState>)
        ensures
            r == (if self.ports().contains_key(key) { Some(self.ports()[key].state) } else { None::<LogicState> }),
    {
        match get_port(&self.inputs, key) {
            Some(p) => Some(p.state),
            None => None,
        }
    }

    /// The current cache key.
    pub fn input_mask(&self) -> (r: u32)
        ensures
            r == self.cache.input_mask,
    {
        self.cache.input_mask
    }

    /// Whether memoization is enabled (the input count is within the ceiling).
    pub fn cache_valid(&self) -> (r: bool)
        ensures
            r == self.cache.cache_valid,
    {
        self.cache.cache_valid
    }

    /// The number of memoized input combinations.
    pub fn cache_len(&self) -> (r: usize)
        ensures
            r == self.cache.output_cache@.len(),
    {
        self.cache.len()
    }

    /// Whether an output is memoized for the combination `mask`.
    pub fn cache_contains(&self, mask: u32) -> (r: bool)
        ensures
            r == self.cache.output_cache@.contains_key(mask),
    {
        self.cache.contains(mask)
    }

    /// How many times this gate's function has been computed rather than read
    /// from the cache.
    pub fn evaluations(&self) -> (r: u64)
        ensures
            r == self.evaluations,
    {
        self.evaluations
    }
}


/// A new AND gate.
pub fn new_and_gate() -> (r: LogicBlock)
    ensures
        r.is_new(GateKind::And),
{
    LogicBlock::new(GateKind::And)
}

/// A new OR gate.
pub fn new_or_gate() -> (r: LogicBlock)
    ensures
        r.is_new(GateKind::Or),
{
    LogicBlock::new(GateKind::Or)
}

/// Whatever a well-formed gate has stored for its current input combination
/// is what its function gives on its current inputs, so answering from the
/// cache (without computing, see `LogicBlock::update`) never changes the
/// output.
pub proof fn lemma_cache_transparent(g: LogicBlock)
    requires
        g.wf(),
        g.cache_hit(),
    ensures
        g.cache.output_cache@[g.cache.input_mask] == g.computed(),
{
    g.lemma_mask_matches();
}

/// Two states of a gate with the same slots and the same cache key have the
/// same function value: an input combination seen again is answered exactly
/// as it was the first time.
pub proof fn lemma_revisit(a: LogicBlock, b: LogicBlock)
    requires
        a.wf(),
        b.wf(),
        a.kind == b.kind,
        a.cache.cache_valid,
        b.cache.cache_valid,
        same_slots(a.ports(), b.ports()),
        a.cache.input_mask == b.cache.input_mask,
    ensures
        a.computed() == b.computed(),
{
    a.lemma_mask_matches();
    b.lemma_mask_matches();
    LogicBlock::lemma_mask_same_slots(a.kind, a.ports(), b.ports());
}

/// `s` is a run of `set_input` calls on one gate: state `i + 1` is what
/// driving input `keys[i]` with `values[i]` makes of state `i`.
pub open spec fn set_input_run(s: Seq<LogicBlock>, keys: Seq<DefaultKey>, values: Seq<LogicState>) -> bool {
    &&& s.len() == keys.len() + 1
    &&& values.len() == keys.len()
    &&& s[0].wf()
    &&& forall|i: int| 0 <= i < keys.len() ==> #[trigger] s[i].ports().contains_key(keys[i])
        && s[i].set_input_post(s[i + 1], keys[i], values[i])
}

/// One call of a run of `set_input` calls.
proof fn lemma_run_step(s: Seq<LogicBlock>, keys: Seq<DefaultKey>, values: Seq<LogicState>, m: int)
    requires
        set_input_run(s, keys, values),
        0 <= m < keys.len(),
    ensures
        s[m].ports().contains_key(keys[m]),
        s[m].set_input_post(s[m + 1], keys[m], values[m]),
{
    assert(s[m].ports().contains_key(keys[m]) && s[m].set_input_post(s[m + 1], keys[m], values[m]));
}

/// Along a run of `set_input` calls a gate keeps its kind, its slots and its
/// cache's validity, and never loses a stored combination.
proof fn lemma_run_keeps(s: Seq<LogicBlock>, keys: Seq<DefaultKey>, values: Seq<LogicState>, i: int, m: int)
    requires
        set_input_run(s, keys, values),
        0 <= i <= m < s.len(),
    ensures
        s[m].wf(),
        s[m].kind == s[i].kind,
        s[m].output.is_inverted == s[i].output.is_inverted,
        same_slots(s[i].ports(), s[m].ports()),
        s[m].cache.cache_valid == s[i].cache.cache_valid,
        s[i].cache.output_cache@.dom().subset_of(s[m].cache.output_cache@.dom()),
    decreases m - i,
{
    if m == 0 {
    } else if m == i {
        lemma_run_step(s, keys, values, m - 1);
        assert(s[m].ports().dom() =~= s[m].ports().dom());
    } else {
        lemma_run_keeps(s, keys, values, i, m - 1);
        let a = s[m - 1];
        let b = s[m];
        lemma_run_step(s, keys, values, m - 1);
        assert(b.ports().dom() =~= a.ports().dom());
        assert(same_slots(a.ports(), b.ports()));
    }
}

/// An input combination seen again along a run of `set_input` calls is
/// answered from the cache: the call that brings it back computes nothing
/// and stores nothing new, and the output is the one first computed for it.
pub proof fn lemma_revisit_run(s: Seq<LogicBlock>, keys: Seq<DefaultKey>, values: Seq<LogicState>, i: int, j: int)
    requires
        set_input_run(s, keys, values),
        1 <= i < j < s.len(),
        s[0].cache.cache_valid,
        s[j].cache.input_mask == s[i].cache.input_mask,
    ensures
        s[j].computed() == s[i].computed(),
        s[j].output.state == s[i].output.state,
        s[j].evaluations == s[j - 1].evaluations,
        s[j].cache.output_cache@ == s[j - 1].cache.output_cache@,
{
    lemma_run_keeps(s, keys, values, 0, i);
    lemma_run_keeps(s, keys, values, i, j);
    lemma_run_keeps(s, keys, values, i, j - 1);
    lemma_run_keeps(s, keys, values, j - 1, j);
    lemma_run_keeps(s, keys, values, 0, i - 1);
    lemma_run_step(s, keys, values, i - 1);
    assert(s[i].cache.output_cache@.contains_key(s[i].cache.input_mask));
    let q = s[j - 1];
    lemma_run_step(s, keys, values, j - 1);
    assert(q.cache.output_cache@.contains_key(s[j].cache.input_mask));
    lemma_revisit(s[i], s[j]);
    q.lemma_mask_matches();
    LogicBlock::lemma_mask_same_slots(q.kind, q.ports(), s[j].ports());
    s[j].lemma_mask_matches();
    assert(q.cache.output_cache@[s[j].cache.input_mask] == s[j].computed());
    assert(q.cache.output_cache@.insert(s[j].cache.input_mask, s[j].computed()) =~= q.cache.output_cache@);
}

} // verus!
