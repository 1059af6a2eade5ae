use vstd::prelude::*;

verus! {

// The durable storage that the note store owns: an ordered map from internal
// keys to serialized note records, and a counter cell holding the next
// unallocated internal key. Both come from ic_stable_structures and live in
// one holder behind opaque wrappers: Verus sees only the contracts below,
// which state what the crate's source shows of `BTreeMap`, `Cell` and
// `MemoryManager`.
//
// The map and the cell sit in distinct regions of the host's memory — two
// `MemoryId`s of one `MemoryManager` — so writes to one can never touch the
// other; each wrapper's contract says so by leaving the other side unchanged.

/// The durable map of serialized note records keyed by internal key,
/// together with the durable allocator cell. Holds an
/// `ic_stable_structures::BTreeMap<u64, Vec<u8>, _>` and an
/// `ic_stable_structures::Cell<u64, _>` in separate memory regions.
#[verifier::external_body]
pub struct DurableStore {
    map: ic_stable_structures::BTreeMap<
        u64,
        Vec<u8>,
        ic_stable_structures::memory_manager::VirtualMemory<
            ic_stable_structures::DefaultMemoryImpl,
        >,
    >,
    next: ic_stable_structures::Cell<
        u64,
        ic_stable_structures::memory_manager::VirtualMemory<
            ic_stable_structures::DefaultMemoryImpl,
        >,
    >,
}

/// The contents of the map: which byte record is stored under which key.
pub uninterp spec fn map_entries(s: DurableStore) -> Map<u64, Seq<u8>>;

/// The value the allocator cell currently holds.
pub uninterp spec fn cell_value(s: DurableStore) -> u64;

/// `es` lists exactly the entries of `m`, in ascending key order.
pub open spec fn is_listing(es: Seq<(u64, Vec<u8>)>, m: Map<u64, Seq<u8>>) -> bool {
    &&& forall|i: int|
        0 <= i < es.len() ==> m.contains_key((#[trigger] es[i]).0) && m[es[i].0] == es[i].1@
    &&& forall|k: u64|
        m.contains_key(k) ==> exists|i: int| 0 <= i < es.len() && (#[trigger] es[i]).0 == k
    &&& forall|i: int, j: int| 0 <= i < j < es.len() ==> es[i].0 < es[j].0
}

impl DurableStore {
    /// Relies on `MemoryManager::init`, `BTreeMap::new` and `Cell::new`:
    /// `new` (unlike `init`) writes a fresh header, overwriting whatever the
    /// region held, so the map comes out empty and the cell holds `init`
    /// whatever state the host's memory was in.
    #[verifier::external_body]
    pub(crate) fn new(init: u64) -> (r: DurableStore)
        ensures
            forall|k: u64| !map_entries(r).contains_key(k),
            cell_value(r) == init,
    {
        let mm = ic_stable_structures::memory_manager::MemoryManager::init(
            ic_stable_structures::DefaultMemoryImpl::default(),
        );
        DurableStore {
            map: ic_stable_structures::BTreeMap::new(
                mm.get(ic_stable_structures::memory_manager::MemoryId::new(0)),
            ),
            next: ic_stable_structures::Cell::new(
                mm.get(ic_stable_structures::memory_manager::MemoryId::new(1)),
                init,
            ),
        }
    }

    /// Relies on `MemoryManager::init`, `BTreeMap::init` and `Cell::init`:
    /// each loads the structure persisted in its region of the host's
    /// memory, or creates a fresh one (the map empty, the cell holding
    /// `default`) where the region holds none.
    ///
    /// Trusted restoration point. Every mutation of this store leaves the
    /// persisted regions holding a well-formed state, and the host hands a
    /// process either untouched memory or memory last written by this
    /// store; the `restorable` clause takes exactly that on trust. Of a
    /// memory written by anything else it holds nothing, and this crate
    /// must not be pointed at one.
    #[verifier::external_body]
    pub(crate) fn init(default: u64) -> (r: DurableStore)
        ensures
            crate::store::restorable(r),
    {
        let mm = ic_stable_structures::memory_manager::MemoryManager::init(
            ic_stable_structures::DefaultMemoryImpl::default(),
        );
        DurableStore {
            map: ic_stable_structures::BTreeMap::init(
                mm.get(ic_stable_structures::memory_manager::MemoryId::new(0)),
            ),
            next: ic_stable_structures::Cell::init(
                mm.get(ic_stable_structures::memory_manager::MemoryId::new(1)),
                default,
            ),
        }
    }

    /// Relies on `BTreeMap::insert`: an upsert that returns the value the
    /// key held before, if any. The value type is unbounded, so no size
    /// check in the crate can reject the record. The cell's region is not
    /// touched.
    #[verifier::external_body]
    pub(crate) fn insert(&mut self, key: u64, value: Vec<u8>) -> (prev: Option<Vec<u8>>)
        ensures
            map_entries(*final(self)) == map_entries(*old(self)).insert(key, value@),
            cell_value(*final(self)) == cell_value(*old(self)),
            prev is Some <==> map_entries(*old(self)).contains_key(key),
            prev matches Some(p) ==> p@ == map_entries(*old(self))[key],
    {
        self.map.insert(key, value)
    }

    /// Relies on `BTreeMap::remove`: removes the key and returns the value
    /// it held, if any. The cell's region is not touched.
    #[verifier::external_body]
    pub(crate) fn remove(&mut self, key: u64) -> (prev: Option<Vec<u8>>)
        ensures
            map_entries(*final(self)) == map_entries(*old(self)).remove(key),
            cell_value(*final(self)) == cell_value(*old(self)),
            prev is Some <==> map_entries(*old(self)).contains_key(key),
            prev matches Some(p) ==> p@ == map_entries(*old(self))[key],
    {
        self.map.remove(&key)
    }

    /// Relies on `BTreeMap::iter`: yields every entry of the map, in
    /// ascending key order.
    #[verifier::external_body]
    pub(crate) fn entries(&self) -> (r: Vec<(u64, Vec<u8>)>)
        ensures
            is_listing(r@, map_entries(*self)),
    {
        self.map.iter().map(|e| e.into_pair()).collect()
    }

    /// Relies on `Cell::get`: returns the stored value.
    #[verifier::external_body]
    pub(crate) fn cell_get(&self) -> (r: u64)
        ensures
            r == cell_value(*self),
    {
        *self.next.get()
    }

    /// Relies on `Cell::set`: durably replaces the stored value. The map's
    /// region is not touched.
    #[verifier::external_body]
    pub(crate) fn cell_set(&mut self, value: u64)
        ensures
            cell_value(*final(self)) == value,
            map_entries(*final(self)) == map_entries(*old(self)),
    {
        let _ = self.next.set(value);
    }
}

} // verus!
