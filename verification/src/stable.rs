//! The durable storage boundary.
//!
//! Everything durable lives in one backing memory, carved by a region
//! pool into independent regions: one region holds the identifier
//! counter, another the ordered record map.  The structures come from
//! `ic_stable_structures`; each call into that crate sits behind one
//! trusted wrapper whose contract states what the crate's source shows,
//! over two named views: the counter's value and the map's entries.
//!
//! The contracts read the storage as the process-wide singleton the
//! design declares: one live store per pool.  Two maps opened over one
//! pool's regions would share the same bytes through the pool's handle,
//! and a caller holding both could pin one map's named entries while
//! the other handle moves the shared bytes underneath them.

use vstd::prelude::*;

use crate::record::MAX_VALUE_SIZE;
use ic_stable_structures::memory_manager::{MemoryId, MemoryManager, VirtualMemory};
use ic_stable_structures::{Cell, DefaultMemoryImpl, StableBTreeMap};

verus! {

/// One backing memory space: stable memory on the target platform, a
/// growable byte vector elsewhere.
#[verifier::external_body]
pub struct Backing {
    mem: DefaultMemoryImpl,
}

/// Relies on `DefaultMemoryImpl::default`: a handle to the platform's
/// backing memory.
#[verifier::external_body]
pub(crate) fn new_backing() -> (r: Backing) {
    Backing { mem: DefaultMemoryImpl::default() }
}

/// Partitions one backing memory into independently addressable regions.
#[verifier::external_body]
pub struct RegionPool {
    mm: MemoryManager<DefaultMemoryImpl>,
}

/// One region of the pool's backing memory.
#[verifier::external_body]
pub struct Region {
    mem: VirtualMemory<DefaultMemoryImpl>,
}

impl RegionPool {
    /// Relies on `MemoryManager::init`: opens (or lays out) the region
    /// table held in the backing memory.
    #[verifier::external_body]
    pub(crate) fn init(backing: Backing) -> (r: RegionPool) {
        RegionPool { mm: MemoryManager::init(backing.mem) }
    }

    /// Relies on `MemoryManager::get` and `MemoryId::new`: repeated calls
    /// with one id address the same bytes, across restarts too; distinct
    /// ids address disjoint bytes.  The id 255 is reserved by the region
    /// table and `MemoryId::new` rejects it.
    #[verifier::external_body]
    pub(crate) fn region(&self, id: u8) -> (r: Region)
        requires
            id != 255,
    {
        Region { mem: self.mm.get(MemoryId::new(id)) }
    }
}

/// The durable identifier counter: one 64-bit value in its own region.
#[verifier::external_body]
pub struct IdCell {
    cell: Cell<u64, VirtualMemory<DefaultMemoryImpl>>,
}

/// The counter value an `IdCell` holds.
pub uninterp spec fn id_cell_value(c: IdCell) -> u64;

impl IdCell {
    /// Relies on `Cell::init`: reads the value the region holds, or
    /// writes and holds 0 when the region is empty.  Traps only when the
    /// region carries the cell magic under an unsupported layout
    /// version, the fatal startup fault; a region whose bytes carry no
    /// cell magic at all is overwritten with a fresh zero cell.
    #[verifier::external_body]
    pub(crate) fn init(region: Region) -> (r: IdCell) {
        IdCell { cell: Cell::init(region.mem, 0) }
    }

    /// Relies on `Cell::get`: returns the held value, without mutation.
    #[verifier::external_body]
    pub(crate) fn get(&self) -> (r: u64)
        ensures
            r == id_cell_value(*self),
    {
        *self.cell.get()
    }

    /// Relies on `Cell::set`: writes the new value durably and returns
    /// the one it replaces.  An eight-byte value always fits the page
    /// that `Cell::init` reserved, so the write cannot fail.
    #[verifier::external_body]
    pub(crate) fn set(&mut self, value: u64) -> (r: u64)
        ensures
            id_cell_value(*final(self)) == value,
            r == id_cell_value(*old(self)),
    {
        self.cell.set(value)
    }
}

/// The durable ordered map from identifier to encoded record, in its
/// own region.
#[verifier::external_body]
pub struct ByteMap {
    map: StableBTreeMap<u64, Vec<u8>, VirtualMemory<DefaultMemoryImpl>>,
}

/// The entries a `ByteMap` holds.
pub uninterp spec fn byte_map_entries(m: ByteMap) -> Map<u64, Seq<u8>>;

/// A point lookup in a map of byte strings.
pub open spec fn lookup(m: Map<u64, Seq<u8>>, k: u64) -> Option<Seq<u8>> {
    if m.contains_key(k) {
        Some(m[k])
    } else {
        None
    }
}

/// The mathematical value of a vector of key/value pairs.
pub open spec fn pairs_view(ps: Seq<(u64, Vec<u8>)>) -> Seq<(u64, Seq<u8>)> {
    ps.map_values(|p: (u64, Vec<u8>)| (p.0, p.1@))
}

/// `ps` enumerates exactly the entries of `m`, in strictly ascending
/// key order.
pub open spec fn is_ascending_entry_list(ps: Seq<(u64, Seq<u8>)>, m: Map<u64, Seq<u8>>) -> bool {
    &&& ps.len() == m.dom().len()
    &&& forall|i: int, j: int|
        0 <= i < j < ps.len() ==> (#[trigger] ps[i]).0 < (#[trigger] ps[j]).0
    &&& forall|i: int|
        0 <= i < ps.len() ==> m.contains_key((#[trigger] ps[i]).0) && m[ps[i].0] == ps[i].1
    &&& forall|k: u64|
        #[trigger] m.contains_key(k) ==> exists|i: int| 0 <= i < ps.len() && (#[trigger] ps[i]).0 == k
}

impl ByteMap {
    /// Relies on `StableBTreeMap::init`: opens the map the region holds,
    /// or lays out an empty one; the same region bytes always yield the
    /// same entries, and there are finitely many of them.
    #[verifier::external_body]
    pub(crate) fn init(region: Region) -> (r: ByteMap)
        ensures
            byte_map_entries(r).dom().finite(),
    {
        ByteMap { map: StableBTreeMap::init(region.mem) }
    }

    /// Relies on `StableBTreeMap::get`: the value under the key, if any;
    /// no mutation.
    #[verifier::external_body]
    pub(crate) fn get(&self, key: u64) -> (r: Option<Vec<u8>>)
        ensures
            r.deep_view() == lookup(byte_map_entries(*self), key),
    {
        self.map.get(&key)
    }

    /// Relies on `StableBTreeMap::insert`: upserts the value under the
    /// key and returns the value it displaces, if any.  Values are kept
    /// within the fixed cap, mirroring the bound the original layout
    /// declared for one encoded record.
    #[verifier::external_body]
    pub(crate) fn insert(&mut self, key: u64, value: Vec<u8>) -> (r: Option<Vec<u8>>)
        requires
            value@.len() <= MAX_VALUE_SIZE,
        ensures
            byte_map_entries(*final(self)) == byte_map_entries(*old(self)).insert(key, value@),
            r.deep_view() == lookup(byte_map_entries(*old(self)), key),
    {
        self.map.insert(key, value)
    }

    /// Relies on `StableBTreeMap::remove`: deletes the entry under the
    /// key, returning its value; absent keys are left alone.
    #[verifier::external_body]
    pub(crate) fn remove(&mut self, key: u64) -> (r: Option<Vec<u8>>)
        ensures
            byte_map_entries(*final(self)) == byte_map_entries(*old(self)).remove(key),
            r.deep_view() == lookup(byte_map_entries(*old(self)), key),
    {
        self.map.remove(&key)
    }

    /// Relies on `StableBTreeMap::iter`: walks every entry once, in
    /// ascending key order.
    #[verifier::external_body]
    pub(crate) fn entries_vec(&self) -> (r: Vec<(u64, Vec<u8>)>)
        ensures
            is_ascending_entry_list(pairs_view(r@), byte_map_entries(*self)),
    {
        let mut out: Vec<(u64, Vec<u8>)> = Vec::new();
        for e in self.map.iter() {
            out.push(e.into_pair());
        }
        out
    }
}

} // verus!
