use vstd::prelude::*;
use crate::port::LogicBlockPort;
use slotmap::{DefaultKey, HopSlotMap};

verus! {

#[verifier::external_type_specification]
#[verifier::external_body]
pub struct ExDefaultKey(slotmap::DefaultKey);

/// The input ports of a gate, in a hop slot map that hands out stable keys.
#[verifier::external_body]
#[allow(deprecated)]
pub struct PortMap {
    map: HopSlotMap<DefaultKey, LogicBlockPort>,
}

/// The ports a slot map holds, by key.
pub uninterp spec fn port_map(m: PortMap) -> Map<DefaultKey, LogicBlockPort>;

/// Relies on HopSlotMap::new: the map starts empty.
#[verifier::external_body]
#[allow(deprecated)]
pub(crate) fn new_port_map() -> (r: PortMap)
    ensures
        port_map(r).dom() == Set::<DefaultKey>::empty(),
{
    PortMap { map: HopSlotMap::new() }
}

/// Relies on HopSlotMap::insert: the value is stored under a key that was not
/// in use. It panics when the map holds 2^32 - 2 elements.
#[verifier::external_body]
#[allow(deprecated)]
pub(crate) fn insert_port(m: &mut PortMap, p: LogicBlockPort) -> (r: DefaultKey)
    requires
        port_map(*old(m)).len() < 0xFFFF_FFFE,
    ensures
        !port_map(*old(m)).contains_key(r),
        port_map(*final(m)) == port_map(*old(m)).insert(r, p),
{
    m.map.insert(p)
}

/// Relies on HopSlotMap::remove: the value under the key leaves the map and is
/// returned; a key that is not in the map changes nothing.
#[verifier::external_body]
#[allow(deprecated)]
pub(crate) fn remove_port(m: &mut PortMap, k: DefaultKey) -> (r: Option<LogicBlockPort>)
    ensures
        r == (if port_map(*old(m)).contains_key(k) { Some(port_map(*old(m))[k]) } else { None::<LogicBlockPort> }),
        port_map(*final(m)) == port_map(*old(m)).remove(k),
{
    m.map.remove(k)
}

/// Relies on HopSlotMap::get: the value under the key, if any.
#[verifier::external_body]
#[allow(deprecated)]
pub(crate) fn get_port(m: &PortMap, k: DefaultKey) -> (r: Option<LogicBlockPort>)
    ensures
        r == (if port_map(*m).contains_key(k) { Some(port_map(*m)[k]) } else { None::<LogicBlockPort> }),
{
    m.map.get(k).copied()
}

/// Relies on HopSlotMap::get_mut: overwrites the value under the key, if any,
/// and reports whether the key was present.
#[verifier::external_body]
#[allow(deprecated)]
pub(crate) fn put_port(m: &mut PortMap, k: DefaultKey, p: LogicBlockPort) -> (r: bool)
    ensures
        r == port_map(*old(m)).contains_key(k),
        port_map(*final(m)) == (if r { port_map(*old(m)).insert(k, p) } else { port_map(*old(m)) }),
{
    match m.map.get_mut(k) {
        Some(slot) => {
            *slot = p;
            true
        },
        None => false,
    }
}

/// Relies on HopSlotMap::len: the number of elements held.
#[verifier::external_body]
#[allow(deprecated)]
pub(crate) fn port_count(m: &PortMap) -> (r: usize)
    ensures
        r == port_map(*m).len(),
{
    m.map.len()
}

/// Relies on HopSlotMap::keys: every key in the map, each once.
#[verifier::external_body]
#[allow(deprecated)]
pub(crate) fn port_keys(m: &PortMap) -> (r: Vec<DefaultKey>)
    ensures
        r@.no_duplicates(),
        forall|k: DefaultKey| port_map(*m).contains_key(k) <==> r@.contains(k),
{
    m.map.keys().collect()
}

/// Relies on the equality of slotmap keys, which compares their index and version.
#[verifier::external_body]
pub(crate) fn same_key(a: DefaultKey, b: DefaultKey) -> (r: bool)
    ensures
        r == (a == b),
{
    a == b
}

} // verus!
