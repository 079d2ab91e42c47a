use vstd::prelude::*;
use dashmap::DashMap;

verus! {

#[verifier::external_type_specification]
#[verifier::external_body]
#[verifier::reject_recursive_types(K)]
#[verifier::reject_recursive_types(V)]
#[verifier::reject_recursive_types(S)]
pub struct ExDashMap<K, V, S>(DashMap<K, V, S>);

/// The concurrent table of pins: address to bytes and type id.
pub type PinTable = DashMap<u64, (Vec<u8>, i32)>;

/// A pinned value: its bytes and type id.
pub type PinnedValue = (Seq<u8>, i32);

/// What a table of pinned values holds: address to bytes and type id.
pub uninterp spec fn pinned_contents(m: PinTable) -> Map<u64, PinnedValue>;

/// No pins at all.
pub open spec fn no_pins() -> Map<u64, PinnedValue> {
    Map::empty()
}

/// Relies on `DashMap::new`: an empty map.
#[verifier::external_body]
fn pinned_new() -> (r: PinTable)
    ensures
        pinned_contents(r) == no_pins(),
{
    DashMap::new()
}

/// Relies on `DashMap::insert`: the key now maps to the value, replacing any
/// earlier one.
#[verifier::external_body]
fn pinned_insert(m: &mut PinTable, addr: u64, value: Vec<u8>, type_id: i32)
    ensures
        pinned_contents(*final(m)) == pinned_contents(*old(m)).insert(addr, (value@, type_id)),
{
    m.insert(addr, (value, type_id));
}

/// Relies on `DashMap::remove`: the entry of the key is removed, and it is
/// returned when there was one.
#[verifier::external_body]
fn pinned_remove(m: &mut PinTable, addr: u64) -> (r: bool)
    ensures
        r == pinned_contents(*old(m)).dom().contains(addr),
        pinned_contents(*final(m)) == pinned_contents(*old(m)).remove(addr),
{
    m.remove(&addr).is_some()
}

/// Relies on `DashMap::contains_key`.
#[verifier::external_body]
fn pinned_contains(m: &PinTable, addr: u64) -> (r: bool)
    ensures
        r == pinned_contents(*m).dom().contains(addr),
{
    m.contains_key(&addr)
}

/// Relies on `DashMap::len`: the number of entries.
#[verifier::external_body]
fn pinned_len(m: &PinTable) -> (r: usize)
    ensures
        r == pinned_contents(*m).dom().len(),
{
    m.len()
}

/// Relies on `DashMap::clear`: no entry is left.
#[verifier::external_body]
fn pinned_clear(m: &mut PinTable)
    ensures
        pinned_contents(*final(m)) == no_pins(),
{
    m.clear();
}

/// Relies on `DashMap::iter`: every entry once, in an order the map picks;
/// each is handed out as its address and a copy of its bytes.
#[verifier::external_body]
fn pinned_entries(m: &PinTable) -> (r: Vec<(u64, Vec<u8>)>)
    ensures
        r@.len() == pinned_contents(*m).dom().len(),
        forall|i: int|
            0 <= i < r@.len() ==> pinned_contents(*m).dom().contains(#[trigger] r@[i].0)
                && r@[i].1@ == pinned_contents(*m)[r@[i].0].0,
        forall|i: int, j: int| 0 <= i < j < r@.len() ==> (#[trigger] r@[i]).0 != (#[trigger] r@[j]).0,
{
    m.iter().map(|e| (*e.key(), e.value().0.clone())).collect()
}

/// Default write-back period, in microseconds.
pub const DEFAULT_INTERVAL_US: u64 = 33000;

/// Values pinned in the target: the write-back loop rewrites each address
/// with its bytes every `interval_us` microseconds while it runs.
pub struct FreezeManager {
    entries: PinTable,
    interval_us: u64,
    running: bool,
}

impl FreezeManager {
    /// The pinned entries.
    pub closed spec fn pinned(&self) -> Map<u64, PinnedValue> {
        pinned_contents(self.entries)
    }

    pub closed spec fn interval_spec(&self) -> u64 {
        self.interval_us
    }

    pub closed spec fn running_spec(&self) -> bool {
        self.running
    }

    pub fn new() -> (r: Self)
        ensures
            r.pinned() == no_pins(),
            r.interval_spec() == DEFAULT_INTERVAL_US,
            !r.running_spec(),
    {
        FreezeManager { entries: pinned_new(), interval_us: DEFAULT_INTERVAL_US, running: false }
    }

    /// Pins `value` at `address`, replacing an earlier pin there.
    pub fn add_frozen(&mut self, address: u64, value: Vec<u8>, value_type: i32)
        ensures
            final(self).pinned() == old(self).pinned().insert(address, (value@, value_type)),
            final(self).interval_spec() == old(self).interval_spec(),
            final(self).running_spec() == old(self).running_spec(),
    {
        pinned_insert(&mut self.entries, address, value, value_type);
    }

    /// Unpins `address`; true when it was pinned.
    pub fn remove_frozen(&mut self, address: u64) -> (r: bool)
        ensures
            r == old(self).pinned().dom().contains(address),
            final(self).pinned() == old(self).pinned().remove(address),
            final(self).interval_spec() == old(self).interval_spec(),
            final(self).running_spec() == old(self).running_spec(),
    {
        pinned_remove(&mut self.entries, address)
    }

    pub fn clear_all(&mut self)
        ensures
            final(self).pinned() == no_pins(),
            final(self).interval_spec() == old(self).interval_spec(),
            final(self).running_spec() == old(self).running_spec(),
    {
        pinned_clear(&mut self.entries);
    }

    pub fn set_interval(&mut self, microseconds: u64)
        ensures
            final(self).interval_spec() == microseconds,
            final(self).pinned() == old(self).pinned(),
            final(self).running_spec() == old(self).running_spec(),
    {
        self.interval_us = microseconds;
    }

    pub fn interval(&self) -> (r: u64)
        ensures
            r == self.interval_spec(),
    {
        self.interval_us
    }

    pub fn get_frozen_count(&self) -> (r: usize)
        ensures
            r == self.pinned().dom().len(),
    {
        pinned_len(&self.entries)
    }

    pub fn is_frozen(&self, address: u64) -> (r: bool)
        ensures
            r == self.pinned().dom().contains(address),
    {
        pinned_contains(&self.entries, address)
    }

    /// The pinned addresses, each once.
    pub fn get_frozen_addresses(&self) -> (r: Vec<u64>)
        ensures
            r@.len() == self.pinned().dom().len(),
            forall|i: int| 0 <= i < r@.len() ==> self.pinned().dom().contains(#[trigger] r@[i]),
            forall|i: int, j: int| 0 <= i < j < r@.len() ==> #[trigger] r@[i] != #[trigger] r@[j],
    {
        let plan = pinned_entries(&self.entries);
        let mut out: Vec<u64> = Vec::new();
        let mut i: usize = 0;
        while i < plan.len()
            invariant
                i <= plan@.len(),
                out@.len() == i,
                forall|k: int| 0 <= k < i ==> #[trigger] out@[k] == plan@[k].0,
            decreases plan@.len() - i,
        {
            out.push(plan[i].0);
            i = i + 1;
        }
        proof {
            assert forall|a: int, b: int| 0 <= a < b < out@.len() implies #[trigger] out@[a] != #[trigger] out@[b] by {
                assert(plan@[a].0 != plan@[b].0);
            }
        }
        out
    }

    /// The writes one pass of the loop makes: every pinned address with its
    /// bytes, once each.
    pub fn write_plan(&self) -> (r: Vec<(u64, Vec<u8>)>)
        ensures
            r@.len() == self.pinned().dom().len(),
            forall|i: int|
                0 <= i < r@.len() ==> self.pinned().dom().contains(#[trigger] r@[i].0) && r@[i].1@
                    == self.pinned()[r@[i].0].0,
    {
        pinned_entries(&self.entries)
    }

    /// Marks the loop as running; false when it already was, and no second
    /// loop is to be started.
    pub fn start(&mut self) -> (r: bool)
        ensures
            r == !old(self).running_spec(),
            final(self).running_spec(),
            final(self).pinned() == old(self).pinned(),
            final(self).interval_spec() == old(self).interval_spec(),
    {
        if self.running {
            return false;
        }
        self.running = true;
        true
    }

    /// Marks the loop as stopped; false when it was not running.
    pub fn stop(&mut self) -> (r: bool)
        ensures
            r == old(self).running_spec(),
            !final(self).running_spec(),
            final(self).pinned() == old(self).pinned(),
            final(self).interval_spec() == old(self).interval_spec(),
    {
        if !self.running {
            return false;
        }
        self.running = false;
        true
    }

    pub fn is_running(&self) -> (r: bool)
        ensures
            r == self.running_spec(),
    {
        self.running
    }
}

} // verus!
