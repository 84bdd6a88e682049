use vstd::prelude::*;
use std::collections::HashMap;
use crate::state::LogicState;

verus! {

broadcast use vstd::std_specs::hash::group_hash_axioms;

/// The largest number of inputs for which a gate memoizes its outputs: one
/// bit per input in a 32-bit key.
pub const MAX_CACHE_INPUTS: usize = 32;

/// Whether bit `i` of the key `m` is set.
pub open spec fn bit(m: u32, i: int) -> bool {
    0 <= i < 32 && (m >> (i as u32)) & 1u32 == 1u32
}

/// The key after input `slot` went `HIGH` (bit set) or anything else (bit cleared).
pub open spec fn recorded(m: u32, slot: int, high: bool) -> u32 {
    if high {
        m | (1u32 << (slot as u32))
    } else {
        m & !(1u32 << (slot as u32))
    }
}

/// Setting or clearing one bit leaves every other bit as it was.
pub proof fn lemma_recorded_bits(m: u32, slot: int, high: bool)
    requires
        0 <= slot < 32,
    ensures
        forall|i: int| #[trigger] bit(recorded(m, slot, high), i) == (if i == slot { high } else { bit(m, i) }),
{
    let s = slot as u32;
    assert forall|i: int| #[trigger] bit(recorded(m, slot, high), i) == (if i == slot { high } else { bit(m, i) }) by {
        if 0 <= i < 32 {
            let j = i as u32;
            if high {
                assert(((m | (1u32 << s)) >> j) & 1u32 == 1u32 <==> (j == s || (m >> j) & 1u32 == 1u32)) by (bit_vector)
                    requires
                        s < 32,
                        j < 32,
                ;
            } else {
                assert(((m & !(1u32 << s)) >> j) & 1u32 == 1u32 <==> (j != s && (m >> j) & 1u32 == 1u32)) by (bit_vector)
                    requires
                        s < 32,
                        j < 32,
                ;
            }
        }
    }
}

/// The empty key has no bit set.
pub proof fn lemma_zero_bits()
    ensures
        forall|i: int| !#[trigger] bit(0u32, i),
{
    assert forall|i: int| !#[trigger] bit(0u32, i) by {
        if 0 <= i < 32 {
            let j = i as u32;
            assert((0u32 >> j) & 1u32 == 0u32) by (bit_vector);
        }
    }
}

/// Memoized outputs of a gate, keyed by the combination of its inputs: bit
/// `n` of the key is set while the input in slot `n` is `HIGH`.
pub struct LogicBlockCache {
    pub input_mask: u32,
    pub output_cache: HashMap<u32, LogicState>,
    pub cache_valid: bool,
}

impl LogicBlockCache {
    /// A disabled cache holds no entries and an empty key.
    pub open spec fn wf(&self) -> bool {
        !self.cache_valid ==> self.output_cache@.is_empty() && self.input_mask == 0
    }

    /// An enabled, empty cache with an empty key.
    pub fn new() -> (r: LogicBlockCache)
        ensures
            r.wf(),
            r.cache_valid,
            r.input_mask == 0,
            r.output_cache@.is_empty(),
    {
        LogicBlockCache { input_mask: 0, output_cache: HashMap::new(), cache_valid: true }
    }

    /// Registers `count` inputs: every entry and the key are cleared, and the
    /// cache is enabled exactly when `count` is within the ceiling.
    pub fn reset_cache(&mut self, count: usize)
        ensures
            final(self).wf(),
            final(self).input_mask == 0,
            final(self).output_cache@.is_empty(),
            final(self).cache_valid == (count <= MAX_CACHE_INPUTS),
    {
        self.input_mask = 0;
        self.output_cache = HashMap::new();
        self.cache_valid = count <= MAX_CACHE_INPUTS;
    }

    /// The stored output for the current key, if the cache is enabled and has one.
    pub fn get_cached_output(&self) -> (r: Option<LogicState>)
        ensures
            r == (if self.cache_valid && self.output_cache@.contains_key(self.input_mask) {
                Some(self.output_cache@[self.input_mask])
            } else {
                None::<LogicState>
            }),
    {
        if !self.cache_valid {
            return None;
        }
        match self.output_cache.get(&self.input_mask) {
            None => None,
            Some(v) => Some(*v),
        }
    }

    /// Stores `output` for the current key; does nothing while disabled.
    pub fn update_cache(&mut self, output: LogicState)
        requires
            old(self).wf(),
        ensures
            final(self).wf(),
            final(self).cache_valid == old(self).cache_valid,
            final(self).input_mask == old(self).input_mask,
            final(self).output_cache@ == (if old(self).cache_valid {
                old(self).output_cache@.insert(old(self).input_mask, output)
            } else {
                old(self).output_cache@
            }),
    {
        if self.cache_valid {
            self.output_cache.insert(self.input_mask, output);
        }
    }

    /// Records that the input in slot `input_number` now holds `state`: its
    /// bit is set for `HIGH` and cleared otherwise. Does nothing while disabled.
    pub fn set_input(&mut self, input_number: usize, state: LogicState)
        requires
            old(self).wf(),
            old(self).cache_valid ==> input_number < MAX_CACHE_INPUTS,
        ensures
            final(self).wf(),
            final(self).cache_valid == old(self).cache_valid,
            final(self).output_cache@ == old(self).output_cache@,
            final(self).input_mask == (if old(self).cache_valid {
                recorded(old(self).input_mask, input_number as int, state == LogicState::HIGH)
            } else {
                old(self).input_mask
            }),
    {
        if self.cache_valid {
            let s: u32 = input_number as u32;
            if state == LogicState::HIGH {
                self.input_mask = self.input_mask | (1u32 << s);
            } else {
                self.input_mask = self.input_mask & !(1u32 << s);
            }
        }
    }

    /// The number of stored entries.
    pub fn len(&self) -> (r: usize)
        ensures
            r == self.output_cache@.len(),
    {
        self.output_cache.len()
    }

    /// Whether an entry is stored for `mask`.
    pub fn contains(&self, mask: u32) -> (r: bool)
        ensures
            r == self.output_cache@.contains_key(mask),
    {
        self.output_cache.contains_key(&mask)
    }
}

} // verus!
