use vstd::prelude::*;
use ic_stable_structures::memory_manager::{MemoryId, MemoryManager, VirtualMemory};
use ic_stable_structures::storable::Blob;
use ic_stable_structures::{Cell, DefaultMemoryImpl, StableBTreeMap};

verus! {

/// The largest value, in bytes, that a `DurableMap` holds.
pub const MAX_VALUE_SIZE: usize = 1024;

/// The durable byte space and the manager that splits it into regions.
#[verifier::external_body]
pub struct MemorySpace {
    manager: MemoryManager<DefaultMemoryImpl>,
}

/// The memory of one region of a `MemorySpace`.
#[verifier::external_body]
pub struct RegionMemory {
    memory: VirtualMemory<DefaultMemoryImpl>,
}

/// A durable `u64` cell over a region's memory.
#[verifier::external_body]
pub struct StableU64Cell {
    cell: Cell<u64, VirtualMemory<DefaultMemoryImpl>>,
}

/// A durable ordered map from `u64` keys to byte values of at most
/// `MAX_VALUE_SIZE` bytes, over a region's memory.
#[verifier::external_body]
pub struct StableBytesMap {
    map: StableBTreeMap<u64, Blob<1024>, VirtualMemory<DefaultMemoryImpl>>,
}

/// The value that a durable cell holds.
pub uninterp spec fn cell_value(c: StableU64Cell) -> u64;

/// The entries of the map that a handle reads and writes in its region.
pub uninterp spec fn map_entries(m: StableBytesMap) -> Map<u64, Seq<u8>>;

impl MemorySpace {
    /// Relies on `MemoryManager::init` over `DefaultMemoryImpl`: it creates a
    /// manager, or loads the one that the durable memory already holds. On the
    /// Internet Computer that memory is the canister's one stable memory, so a
    /// process opens it once.
    #[verifier::external_body]
    pub(crate) fn open() -> (r: MemorySpace) {
        MemorySpace { manager: MemoryManager::init(DefaultMemoryImpl::default()) }
    }

    /// Relies on `MemoryManager::get` with `MemoryId::new(tag)`: the memory of
    /// the tag's own extent. `MemoryId::new` panics on the tag 255.
    #[verifier::external_body]
    pub(crate) fn region_memory(&self, tag: u8) -> (r: RegionMemory)
        requires
            tag < 255,
    {
        RegionMemory { memory: self.manager.get(MemoryId::new(tag)) }
    }
}

impl StableU64Cell {
    /// Relies on `Cell::init`: it loads the value that the memory holds, or
    /// writes the default into memory that holds no cell. It fails when the
    /// memory cannot grow or holds a cell of another layout version.
    #[verifier::external_body]
    pub(crate) fn init(memory: RegionMemory, default: u64) -> (r: Option<StableU64Cell>) {
        Cell::init(memory.memory, default).ok().map(|cell| StableU64Cell { cell })
    }

    /// Relies on `Cell::get`: the value last set.
    #[verifier::external_body]
    pub(crate) fn get(&self) -> (r: u64)
        ensures
            r == cell_value(*self),
    {
        *self.cell.get()
    }

    /// Relies on `Cell::set`: it writes the value. It fails only when the
    /// memory must grow and cannot; a cell that `init` created or loaded
    /// already has room for a `u64`, so this write succeeds.
    #[verifier::external_body]
    pub(crate) fn set(&mut self, value: u64) -> (r: bool)
        ensures
            r,
            cell_value(*final(self)) == value,
    {
        self.cell.set(value).is_ok()
    }
}

impl StableBytesMap {
    /// Relies on `BTreeMap::init`: it loads the map that the memory holds, or
    /// creates an empty one; either way the map has finitely many entries.
    /// The map assumes that no other structure uses its memory.
    #[verifier::external_body]
    pub(crate) fn init(memory: RegionMemory) -> (r: StableBytesMap)
        ensures
            map_entries(r).dom().finite(),
    {
        StableBytesMap { map: StableBTreeMap::init(memory.memory) }
    }

    /// Relies on `BTreeMap::get`: the value stored under the key, if any.
    #[verifier::external_body]
    pub(crate) fn get(&self, key: u64) -> (r: Option<Vec<u8>>)
        ensures
            r is Some <==> map_entries(*self).contains_key(key),
            r matches Some(v) ==> v@ == map_entries(*self)[key],
    {
        self.map.get(&key).map(|b| b.as_slice().to_vec())
    }

    /// Relies on `BTreeMap::insert` and `Blob::try_from`: the value replaces
    /// whatever the key held, which is returned. Both panic on a value longer
    /// than the map's bound.
    #[verifier::external_body]
    pub(crate) fn insert(&mut self, key: u64, value: Vec<u8>) -> (r: Option<Vec<u8>>)
        requires
            value@.len() <= MAX_VALUE_SIZE,
        ensures
            map_entries(*final(self)) == map_entries(*old(self)).insert(key, value@),
            r is Some <==> map_entries(*old(self)).contains_key(key),
            r matches Some(v) ==> v@ == map_entries(*old(self))[key],
    {
        let blob = Blob::<1024>::try_from(value.as_slice()).unwrap();
        self.map.insert(key, blob).map(|b| b.as_slice().to_vec())
    }

    /// Relies on `BTreeMap::remove`: the key leaves the map, and its value, if
    /// any, is returned.
    #[verifier::external_body]
    pub(crate) fn remove(&mut self, key: u64) -> (r: Option<Vec<u8>>)
        ensures
            map_entries(*final(self)) == map_entries(*old(self)).remove(key),
            r is Some <==> map_entries(*old(self)).contains_key(key),
            r matches Some(v) ==> v@ == map_entries(*old(self))[key],
    {
        self.map.remove(&key).map(|b| b.as_slice().to_vec())
    }

    /// Relies on `BTreeMap::iter`: every entry once, in ascending key order.
    #[verifier::external_body]
    pub(crate) fn entries(&self) -> (r: Vec<(u64, Vec<u8>)>)
        ensures
            r@.len() == map_entries(*self).dom().len(),
            forall|i: int, j: int| 0 <= i < j < r@.len() ==> r@[i].0 < r@[j].0,
            forall|i: int|
                0 <= i < r@.len() ==> map_entries(*self).contains_key(#[trigger] r@[i].0)
                    && map_entries(*self)[r@[i].0] == r@[i].1@,
            forall|k: u64|
                #[trigger] map_entries(*self).contains_key(k) ==> exists|i: int|
                    0 <= i < r@.len() && r@[i].0 == k,
    {
        self.map.iter().map(|(k, b)| (k, b.as_slice().to_vec())).collect()
    }
}

/// The durable byte space, partitioned into regions addressed by a small tag.
/// It hands out each tag's region at most once, so every region has a single
/// owner. On the Internet Computer all allocators open the same stable
/// memory: a process creates one.
pub struct RegionAllocator {
    space: MemorySpace,
    issued: Ghost<Set<u8>>,
}

impl RegionAllocator {
    /// The tags whose region has been handed out.
    pub closed spec fn issued(&self) -> Set<u8> {
        self.issued@
    }

    /// Opens the durable byte space; no region is handed out yet.
    pub fn new() -> (r: RegionAllocator)
        ensures
            r.issued() == Set::<u8>::empty(),
    {
        RegionAllocator { space: MemorySpace::open(), issued: Ghost(Set::empty()) }
    }

    /// Hands out the region of a tag not handed out before.
    pub fn region(&mut self, tag: u8) -> (r: Region)
        requires
            tag < 255,
            !old(self).issued().contains(tag),
        ensures
            final(self).issued() == old(self).issued().insert(tag),
            r.tag() == tag,
    {
        let memory = self.space.region_memory(tag);
        self.issued = Ghost(self.issued@.insert(tag));
        Region { memory, tag }
    }
}

/// The one handle to a region, with the tag it was handed out for.
pub struct Region {
    memory: RegionMemory,
    tag: u8,
}

impl Region {
    /// The tag of the region.
    pub closed spec fn tag(&self) -> u8 {
        self.tag
    }
}

/// A single durable `u64` in its own region.
pub struct DurableCell {
    cell: StableU64Cell,
    tag: u8,
    default: u64,
}

impl DurableCell {
    /// The value the cell holds.
    pub closed spec fn value(&self) -> u64 {
        cell_value(self.cell)
    }

    /// The tag of the cell's region.
    pub closed spec fn tag(&self) -> u8 {
        self.tag
    }

    /// The value the cell starts with in a region that held no cell.
    pub closed spec fn default(&self) -> u64 {
        self.default
    }

    /// Opens the cell in a region: the value it holds, or `default` where
    /// none was written. `None` when the memory cannot be used.
    pub fn init(region: Region, default: u64) -> (r: Option<DurableCell>)
        ensures
            r matches Some(c) ==> c.tag() == region.tag() && c.default() == default,
    {
        let tag = region.tag;
        match StableU64Cell::init(region.memory, default) {
            Some(cell) => Some(DurableCell { cell, tag, default }),
            None => None,
        }
    }

    /// The value the cell holds.
    pub fn get(&self) -> (r: u64)
        ensures
            r == self.value(),
    {
        self.cell.get()
    }

    /// Overwrites the value; the write always lands.
    pub fn set(&mut self, value: u64) -> (r: bool)
        ensures
            r,
            final(self).value() == value,
            final(self).tag() == old(self).tag(),
            final(self).default() == old(self).default(),
    {
        self.cell.set(value)
    }
}

/// A durable ordered map from `u64` keys to byte values, in its own region.
pub struct DurableMap {
    map: StableBytesMap,
    tag: u8,
}

impl DurableMap {
    /// The entries the map holds.
    pub closed spec fn contents(&self) -> Map<u64, Seq<u8>> {
        map_entries(self.map)
    }

    /// The tag of the map's region.
    pub closed spec fn tag(&self) -> u8 {
        self.tag
    }

    /// Opens the map in a region: the entries it holds, or none.
    pub fn init(region: Region) -> (r: DurableMap)
        ensures
            r.contents().dom().finite(),
            r.tag() == region.tag(),
    {
        let tag = region.tag;
        DurableMap { map: StableBytesMap::init(region.memory), tag }
    }

    /// The value under the key, if any.
    pub fn get(&self, key: u64) -> (r: Option<Vec<u8>>)
        ensures
            r is Some <==> self.contents().contains_key(key),
            r matches Some(v) ==> v@ == self.contents()[key],
    {
        self.map.get(key)
    }

    /// Stores the value under the key and returns what the key held.
    pub fn insert(&mut self, key: u64, value: Vec<u8>) -> (r: Option<Vec<u8>>)
        requires
            value@.len() <= MAX_VALUE_SIZE,
        ensures
            final(self).contents() == old(self).contents().insert(key, value@),
            final(self).tag() == old(self).tag(),
            r is Some <==> old(self).contents().contains_key(key),
            r matches Some(v) ==> v@ == old(self).contents()[key],
    {
        self.map.insert(key, value)
    }

    /// Removes the key and returns what it held.
    pub fn remove(&mut self, key: u64) -> (r: Option<Vec<u8>>)
        ensures
            final(self).contents() == old(self).contents().remove(key),
            final(self).tag() == old(self).tag(),
            r is Some <==> old(self).contents().contains_key(key),
            r matches Some(v) ==> v@ == old(self).contents()[key],
    {
        self.map.remove(key)
    }

    /// Every entry once, in ascending key order.
    pub fn entries(&self) -> (r: Vec<(u64, Vec<u8>)>)
        ensures
            r@.len() == self.contents().dom().len(),
            forall|i: int, j: int| 0 <= i < j < r@.len() ==> r@[i].0 < r@[j].0,
            forall|i: int|
                0 <= i < r@.len() ==> self.contents().contains_key(#[trigger] r@[i].0)
                    && self.contents()[r@[i].0] == r@[i].1@,
            forall|k: u64|
                #[trigger] self.contents().contains_key(k) ==> exists|i: int|
                    0 <= i < r@.len() && r@[i].0 == k,
    {
        self.map.entries()
    }
}

} // verus!
