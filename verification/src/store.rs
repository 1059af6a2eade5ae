use vstd::prelude::*;
use vstd::pervasive::unreached;
use vstd::slice::slice_to_vec;
use crate::codec::{decode_note, encode_note, encoding_of};
use crate::note::{Note, NoteView, MAX_NOTE_BYTES};
use crate::owner::{anonymous_bytes, Owner};
use crate::storage::{cell_value, is_listing, map_entries, DurableStore};

verus! {

/// Why a note store operation was refused.
#[derive(Clone, Copy, Debug, PartialEq, Eq, Structural)]
pub enum NoteError {
    /// A mutating operation was called with the anonymous identity.
    Unauthenticated,
    /// No note of the calling owner carries the given display id.
    NotFound,
    /// A note with the given display id exists, but under another owner.
    /// The lookups below are owner-scoped, so they fold this case into
    /// `NotFound`; the variant names the distinction all the same.
    Forbidden,
    /// The serialized note record would exceed `MAX_NOTE_BYTES`.
    PayloadTooLarge,
}

/// The count recorded for an owner: zero for an owner never seen.
pub open spec fn count_in(c: Map<Seq<u8>, u64>, o: Seq<u8>) -> u64 {
    if c.contains_key(o) {
        c[o]
    } else {
        0
    }
}

/// Whether some note of owner `o` carries display id `d`.
pub open spec fn has_id(m: Map<u64, NoteView>, o: Seq<u8>, d: u64) -> bool {
    exists|k: u64| #[trigger] m.contains_key(k) && m[k].owner == o && m[k].display_id == d
}

/// The invariant of the note store's mathematical state: `m` is the stored
/// notes by internal key, `c` the per-owner note counts, `next` the next
/// internal key the allocator will hand out.
///
/// The display ids of each owner's notes are exactly `1..=count`, without
/// duplicates; every stored record fits the size bound; internal keys are
/// always below the allocator's next value, so a fresh key never collides.
pub open spec fn store_inv(m: Map<u64, NoteView>, c: Map<Seq<u8>, u64>, next: u64) -> bool {
    &&& m.dom().finite()
    &&& forall|k: u64| #[trigger] m.contains_key(k) ==> m[k].fits()
    &&& forall|k1: u64, k2: u64|
        #[trigger] m.contains_key(k1) && #[trigger] m.contains_key(k2) && m[k1].owner
            == m[k2].owner && m[k1].display_id == m[k2].display_id ==> k1 == k2
    &&& forall|k: u64|
        #[trigger] m.contains_key(k) ==> 1 <= m[k].display_id <= count_in(c, m[k].owner)
    &&& forall|o: Seq<u8>, d: u64| 1 <= d <= count_in(c, o) ==> #[trigger] has_id(m, o, d)
    &&& forall|k: u64| #[trigger] m.contains_key(k) ==> k < next
    &&& forall|o: Seq<u8>| #[trigger] count_in(c, o) < next
    &&& next >= 1
}

/// Inserting a fresh note with the next display id of its owner preserves
/// the store invariant.
proof fn lemma_inv_insert_fresh(
    m0: Map<u64, NoteView>,
    c0: Map<Seq<u8>, u64>,
    next0: u64,
    nv: NoteView,
    key: u64,
)
    requires
        store_inv(m0, c0, next0),
        next0 < u64::MAX,
        key == next0,
        nv.display_id == count_in(c0, nv.owner) + 1,
        nv.fits(),
    ensures
        !m0.contains_key(key),
        store_inv(
            m0.insert(key, nv),
            c0.insert(nv.owner, (count_in(c0, nv.owner) + 1) as u64),
            (next0 + 1) as u64,
        ),
{
    let c = count_in(c0, nv.owner);
    let m1 = m0.insert(key, nv);
    let c1 = c0.insert(nv.owner, (c + 1) as u64);
    assert(!m0.contains_key(key));
    assert forall|k1: u64, k2: u64|
        #[trigger] m1.contains_key(k1) && #[trigger] m1.contains_key(k2) && m1[k1].owner
            == m1[k2].owner && m1[k1].display_id == m1[k2].display_id implies k1 == k2 by {
        if k1 == key && k2 != key {
            assert(m0.contains_key(k2));
            assert(m0[k2].display_id <= c);
        } else if k2 == key && k1 != key {
            assert(m0.contains_key(k1));
            assert(m0[k1].display_id <= c);
        }
    }
    assert forall|k: u64| #[trigger] m1.contains_key(k) implies 1 <= m1[k].display_id <= count_in(
        c1,
        m1[k].owner,
    ) by {
        if k != key {
            assert(m0.contains_key(k));
            if m0[k].owner == nv.owner {
                assert(m0[k].display_id <= c);
            } else {
                assert(count_in(c1, m0[k].owner) == count_in(c0, m0[k].owner));
            }
        }
    }
    assert forall|o: Seq<u8>, d: u64| 1 <= d <= count_in(c1, o) implies #[trigger] has_id(
        m1,
        o,
        d,
    ) by {
        if o == nv.owner && d == c + 1 {
            assert(m1.contains_key(key) && m1[key].owner == o && m1[key].display_id == d);
        } else {
            assert(1 <= d <= count_in(c0, o));
            assert(has_id(m0, o, d));
            let w = choose|k: u64|
                #[trigger] m0.contains_key(k) && m0[k].owner == o && m0[k].display_id == d;
            assert(m1.contains_key(w) && m1[w].owner == o && m1[w].display_id == d);
        }
    }
    assert forall|o: Seq<u8>| #[trigger] count_in(c1, o) < next0 + 1 by {
        if o != nv.owner {
            assert(count_in(c1, o) == count_in(c0, o));
        }
    }
}

/// Replacing a note's payload in place, keeping its owner and display id,
/// preserves the store invariant.
proof fn lemma_inv_replace(
    m0: Map<u64, NoteView>,
    c0: Map<Seq<u8>, u64>,
    next0: u64,
    key: u64,
    nv: NoteView,
)
    requires
        store_inv(m0, c0, next0),
        m0.contains_key(key),
        nv.owner == m0[key].owner,
        nv.display_id == m0[key].display_id,
        nv.fits(),
    ensures
        store_inv(m0.insert(key, nv), c0, next0),
{
    let m1 = m0.insert(key, nv);
    assert(m1.dom() =~= m0.dom());
    assert forall|k1: u64, k2: u64|
        #[trigger] m1.contains_key(k1) && #[trigger] m1.contains_key(k2) && m1[k1].owner
            == m1[k2].owner && m1[k1].display_id == m1[k2].display_id implies k1 == k2 by {
        assert(m0.contains_key(k1) && m0.contains_key(k2));
        assert(m0[k1].owner == m1[k1].owner && m0[k1].display_id == m1[k1].display_id);
        assert(m0[k2].owner == m1[k2].owner && m0[k2].display_id == m1[k2].display_id);
    }
    assert forall|o: Seq<u8>, d: u64| 1 <= d <= count_in(c0, o) implies #[trigger] has_id(
        m1,
        o,
        d,
    ) by {
        assert(has_id(m0, o, d));
        let w = choose|k: u64|
            #[trigger] m0.contains_key(k) && m0[k].owner == o && m0[k].display_id == d;
        assert(m1.contains_key(w) && m1[w].owner == o && m1[w].display_id == d);
    }
}

/// The model after deleting owner `o`'s note numbered `did`, stored under
/// internal key `tk`: that entry is gone, each of the owner's
/// higher-numbered notes moves down one display id under its unchanged
/// internal key, and every other note is untouched.
pub open spec fn deleted_model(
    m: Map<u64, NoteView>,
    o: Seq<u8>,
    did: u64,
    tk: u64,
) -> Map<u64, NoteView> {
    Map::new(
        |k: u64| m.contains_key(k) && k != tk,
        |k: u64|
            if m[k].owner == o && m[k].display_id > did {
                NoteView { display_id: (m[k].display_id - 1) as u64, ..m[k] }
            } else {
                m[k]
            },
    )
}

/// Deleting a note and moving its owner's higher-numbered notes down one
/// display id re-establishes the store invariant with one note fewer.
proof fn lemma_inv_delete(
    m0: Map<u64, NoteView>,
    c0: Map<Seq<u8>, u64>,
    next0: u64,
    o: Seq<u8>,
    did: u64,
    tk: u64,
)
    requires
        store_inv(m0, c0, next0),
        m0.contains_key(tk),
        m0[tk].owner == o,
        m0[tk].display_id == did,
    ensures
        count_in(c0, o) >= 1,
        store_inv(
            deleted_model(m0, o, did, tk),
            c0.insert(o, (count_in(c0, o) - 1) as u64),
            next0,
        ),
{
    let c = count_in(c0, o);
    assert(1 <= did <= c);
    let m1 = deleted_model(m0, o, did, tk);
    let c1 = c0.insert(o, (c - 1) as u64);
    assert(m1.dom() =~= m0.dom().remove(tk));
    assert forall|k: u64| #[trigger] m1.contains_key(k) implies m1[k].fits() by {
        assert(m0.contains_key(k) && m0[k].fits());
    }
    assert forall|k: u64|
        #[trigger] m1.contains_key(k) && m1[k].owner == o implies m0[k].display_id != did by {
        if m0[k].display_id == did {
            assert(m0.contains_key(k) && m0.contains_key(tk));
        }
    }
    assert forall|k1: u64, k2: u64|
        #[trigger] m1.contains_key(k1) && #[trigger] m1.contains_key(k2) && m1[k1].owner
            == m1[k2].owner && m1[k1].display_id == m1[k2].display_id implies k1 == k2 by {
        assert(m0.contains_key(k1) && m0.contains_key(k2));
        assert(m1[k1].owner == m0[k1].owner && m1[k2].owner == m0[k2].owner);
        if m0[k1].owner == o {
            assert(m0[k1].display_id != did && m0[k2].display_id != did);
            if m0[k1].display_id > did && m0[k2].display_id > did {
                assert(m0[k1].display_id == m0[k2].display_id);
            } else if m0[k1].display_id < did && m0[k2].display_id < did {
                assert(m0[k1].display_id == m0[k2].display_id);
            } else {
                assert(false);
            }
        }
    }
    assert forall|k: u64| #[trigger] m1.contains_key(k) implies 1 <= m1[k].display_id <= count_in(
        c1,
        m1[k].owner,
    ) by {
        assert(m0.contains_key(k));
        if m0[k].owner == o {
            assert(m0[k].display_id != did);
            assert(m0[k].display_id <= c);
        } else {
            assert(count_in(c1, m0[k].owner) == count_in(c0, m0[k].owner));
        }
    }
    assert forall|oo: Seq<u8>, d: u64| 1 <= d <= count_in(c1, oo) implies #[trigger] has_id(
        m1,
        oo,
        d,
    ) by {
        if oo == o {
            if d < did {
                assert(has_id(m0, o, d));
                let w = choose|k: u64|
                    #[trigger] m0.contains_key(k) && m0[k].owner == o && m0[k].display_id == d;
                assert(w != tk);
                assert(m1.contains_key(w) && m1[w].owner == o && m1[w].display_id == d);
            } else {
                assert(1 <= d + 1 <= c);
                assert(has_id(m0, o, (d + 1) as u64));
                let w = choose|k: u64|
                    #[trigger] m0.contains_key(k) && m0[k].owner == o && m0[k].display_id == d + 1;
                assert(w != tk);
                assert(m1.contains_key(w) && m1[w].owner == o && m1[w].display_id == d);
            }
        } else {
            assert(1 <= d <= count_in(c0, oo));
            assert(has_id(m0, oo, d));
            let w = choose|k: u64|
                #[trigger] m0.contains_key(k) && m0[k].owner == oo && m0[k].display_id == d;
            assert(w != tk);
            assert(m1.contains_key(w) && m1[w].owner == oo && m1[w].display_id == d);
        }
    }
    assert forall|oo: Seq<u8>| #[trigger] count_in(c1, oo) < next0 by {
        if oo != o {
            assert(count_in(c1, oo) == count_in(c0, oo));
        }
    }
}

/// The views of a sequence of notes.
pub open spec fn views_of(s: Seq<Note>) -> Seq<NoteView> {
    s.map_values(|n: Note| n@)
}

/// The key under which owner `o`'s note numbered `d` is stored, where one
/// exists.
pub open spec fn key_of(m: Map<u64, NoteView>, o: Seq<u8>, d: u64) -> u64 {
    choose|k: u64| #[trigger] m.contains_key(k) && m[k].owner == o && m[k].display_id == d
}

/// `l` lists owner `o`'s notes sorted ascending by display id: it has one
/// note per display id `1..=c`, in order, and each is the note `m` stores
/// under that number.
pub open spec fn owner_listing(
    m: Map<u64, NoteView>,
    c: u64,
    o: Seq<u8>,
    l: Seq<NoteView>,
) -> bool {
    &&& l.len() == c
    &&& forall|i: int|
        0 <= i < l.len() ==> (#[trigger] l[i]).owner == o && l[i].display_id == i + 1
    &&& forall|i: int|
        0 <= i < l.len() ==> has_id(m, o, (i + 1) as u64) && (#[trigger] l[i]) == m[key_of(
            m,
            o,
            (i + 1) as u64,
        )]
}

/// The durable state `s` carries the note-store model `(m, c)`: the map
/// holds exactly the serialized forms of `m`'s notes, and `m`, `c` and the
/// allocator satisfy the store invariant.
pub open spec fn coupled(s: DurableStore, m: Map<u64, NoteView>, c: Map<Seq<u8>, u64>) -> bool {
    &&& map_entries(s).dom() == m.dom()
    &&& forall|k: u64| #[trigger] m.contains_key(k) ==> map_entries(s)[k] == encoding_of(m[k])
    &&& store_inv(m, c, cell_value(s))
}

/// The durable state `s` carries some well-formed note-store model.
pub open spec fn restorable(s: DurableStore) -> bool {
    exists|m: Map<u64, NoteView>, c: Map<Seq<u8>, u64>| #[trigger] coupled(s, m, c)
}

/// The multi-tenant note store: a durable map of serialized notes keyed by
/// internal key, and a durable allocator cell for fresh internal keys.
pub struct NoteStore {
    store: DurableStore,
    notes: Ghost<Map<u64, NoteView>>,
    counts: Ghost<Map<Seq<u8>, u64>>,
}

impl NoteStore {
    /// The notes held by the store, by internal key.
    pub closed spec fn model(&self) -> Map<u64, NoteView> {
        self.notes@
    }

    /// How many notes the given owner holds.
    pub closed spec fn count_of(&self, o: Seq<u8>) -> u64 {
        count_in(self.counts@, o)
    }

    /// The internal key the allocator will hand out next.
    pub closed spec fn next_key(&self) -> u64 {
        cell_value(self.store)
    }

    /// The store's invariant: the durable map holds exactly the serialized
    /// forms of the model's notes, and the model satisfies `store_inv`.
    pub closed spec fn wf(&self) -> bool {
        coupled(self.store, self.notes@, self.counts@)
    }

    /// A fresh, empty store, overwriting whatever the host's memory held.
    /// Internal keys start at 1.
    pub fn new() -> (r: NoteStore)
        ensures
            r.wf(),
            forall|k: u64| !r.model().contains_key(k),
            forall|o: Seq<u8>| r.count_of(o) == 0,
            r.next_key() == 1,
    {
        let r = NoteStore {
            store: DurableStore::new(1),
            notes: Ghost(Map::empty()),
            counts: Ghost(Map::empty()),
        };
        proof {
            assert(map_entries(r.store).dom() =~= r.notes@.dom());
        }
        r
    }

    /// Opens the store persisted in the host's memory, or a fresh, empty one
    /// where that memory holds none. It does not say the store is empty,
    /// only that some well-formed state was loaded (`DurableStore::init`
    /// takes that on trust); the model is the one the loaded records decode
    /// to.
    pub fn load() -> (r: NoteStore)
        ensures
            r.wf(),
    {
        let ds = DurableStore::init(1);
        let ghost (m, c) = choose|m: Map<u64, NoteView>, c: Map<Seq<u8>, u64>| coupled(ds, m, c);
        NoteStore { store: ds, notes: Ghost(m), counts: Ghost(c) }
    }

    /// The internal key the allocator will hand out next. `create` requires
    /// this to be below `u64::MAX`; a caller that cannot track it reads it
    /// here.
    pub fn next_internal_key(&self) -> (r: u64)
        ensures
            r == self.next_key(),
    {
        self.store.cell_get()
    }

    /// Parses the record stored under `key` back into that note.
    fn decode_entry(&self, key: u64, value: &Vec<u8>) -> (n: Note)
        requires
            self.wf(),
            self.model().contains_key(key),
            value@ == map_entries(self.store)[key],
        ensures
            n@ == self.model()[key],
    {
        proof {
            assert(encoding_of(self.model()[key]) == value@);
        }
        match decode_note(value) {
            Some(n) => n,
            None => unreached(),
        }
    }

    /// The highest display id among the owner's notes, which under the
    /// invariant is exactly the owner's note count.
    fn max_display(&self, es: &Vec<(u64, Vec<u8>)>, owner: &Owner) -> (r: u64)
        requires
            self.wf(),
            is_listing(es@, map_entries(self.store)),
        ensures
            r == self.count_of(owner@),
    {
        let n = es.len();
        let mut maxd: u64 = 0;
        let mut i: usize = 0;
        while i < n
            invariant
                self.wf(),
                is_listing(es@, map_entries(self.store)),
                n == es@.len(),
                i <= n,
                maxd <= self.count_of(owner@),
                forall|j: int|
                    0 <= j < i ==> (self.model()[(#[trigger] es@[j]).0].owner == owner@
                        ==> self.model()[es@[j].0].display_id <= maxd),
            decreases n - i,
        {
            let kv = &es[i];
            let note = self.decode_entry(kv.0, &kv.1);
            if note.owner == *owner {
                if note.display_id > maxd {
                    maxd = note.display_id;
                }
            }
            i += 1;
        }
        proof {
            let c = self.count_of(owner@);
            if c >= 1 {
                assert(has_id(self.model(), owner@, c));
                let k0 = choose|k: u64|
                    #[trigger] self.model().contains_key(k) && self.model()[k].owner == owner@
                        && self.model()[k].display_id == c;
                assert(map_entries(self.store).contains_key(k0));
                let j = choose|j: int| 0 <= j < es@.len() && (#[trigger] es@[j]).0 == k0;
                assert(self.model()[es@[j].0].display_id <= maxd);
            }
        }
        maxd
    }

    /// The note that a successful `create` call appends for this owner:
    /// the given payload, numbered one past the owner's current count.
    pub open spec fn created_view(
        &self,
        owner: Seq<u8>,
        title: Seq<char>,
        content: Seq<char>,
    ) -> NoteView {
        NoteView { display_id: (self.count_of(owner) + 1) as u64, title, content, owner }
    }

    /// Creates a note for `owner`, giving it the next display id of that
    /// owner's gap-free sequence and a fresh internal key. Fails with
    /// `Unauthenticated` for the anonymous identity and with
    /// `PayloadTooLarge` when the serialized record would exceed
    /// `MAX_NOTE_BYTES`; in both cases the store is untouched.
    pub fn create(&mut self, owner: Owner, title: String, content: String) -> (r: Result<
        String,
        NoteError,
    >)
        requires
            old(self).wf(),
            old(self).next_key() < u64::MAX,
        ensures
            final(self).wf(),
            owner@ == anonymous_bytes() ==> (r matches Err(e) && e == NoteError::Unauthenticated)
                && *final(self) == *old(self),
            owner@ != anonymous_bytes() && !old(self).created_view(owner@, title@, content@).fits()
                ==> (r matches Err(e) && e == NoteError::PayloadTooLarge) && *final(self)
                == *old(self),
            owner@ != anonymous_bytes() && old(self).created_view(owner@, title@, content@).fits()
                ==> (r matches Ok(m) && m@ == "Note created successfully"@),
            owner@ != anonymous_bytes() && old(self).created_view(owner@, title@, content@).fits()
                ==> final(self).model() == old(self).model().insert(
                old(self).next_key(),
                old(self).created_view(owner@, title@, content@),
            ) && !old(self).model().contains_key(old(self).next_key()),
            owner@ != anonymous_bytes() && old(self).created_view(owner@, title@, content@).fits()
                ==> final(self).count_of(owner@) == old(self).count_of(owner@) + 1
                && final(self).next_key() == old(self).next_key() + 1,
            forall|o: Seq<u8>| o != owner@ ==> final(self).count_of(o) == old(self).count_of(o),
    {
        if owner.is_anonymous() {
            return Err(NoteError::Unauthenticated);
        }
        let ghost nv = self.created_view(owner@, title@, content@);
        let tb = title.as_str().as_bytes_vec();
        let cb = content.as_str().as_bytes_vec();
        let ol = owner.bytes.len();
        if ol > MAX_NOTE_BYTES || tb.len() > MAX_NOTE_BYTES || cb.len() > MAX_NOTE_BYTES {
            return Err(NoteError::PayloadTooLarge);
        }
        let total = 12 + ol + tb.len() + cb.len();
        if total > MAX_NOTE_BYTES {
            return Err(NoteError::PayloadTooLarge);
        }
        let es = self.store.entries();
        let maxd = self.max_display(&es, &owner);
        let key = self.store.cell_get();
        self.store.cell_set(key + 1);
        let note = Note { display_id: maxd + 1, title, content, owner };
        proof {
            assert(note@ == nv);
        }
        let bytes = encode_note(&note);
        let _ = self.store.insert(key, bytes);
        proof {
            lemma_inv_insert_fresh(
                old(self).notes@,
                old(self).counts@,
                cell_value(old(self).store),
                nv,
                key,
            );
        }
        self.notes = Ghost(self.notes@.insert(key, nv));
        self.counts = Ghost(self.counts@.insert(nv.owner, (maxd + 1) as u64));
        proof {
            assert(map_entries(self.store).dom() =~= self.notes@.dom());
            assert forall|k: u64| #[trigger] self.notes@.contains_key(k) implies map_entries(
                self.store,
            )[k] == encoding_of(self.notes@[k]) by {
                if k != key {
                    assert(old(self).notes@.contains_key(k));
                }
            }
        }
        Ok("Note created successfully".to_owned())
    }

    /// Returns the owner's notes, sorted ascending by display id: position
    /// `i` holds the note numbered `i + 1`. The anonymous identity gets an
    /// empty listing rather than an error.
    pub fn get_notes(&self, owner: &Owner) -> (r: Vec<Note>)
        requires
            self.wf(),
        ensures
            owner@ == anonymous_bytes() ==> r@.len() == 0,
            owner@ != anonymous_bytes() ==> owner_listing(
                self.model(),
                self.count_of(owner@),
                owner@,
                views_of(r@),
            ),
    {
        if owner.is_anonymous() {
            return Vec::new();
        }
        let es = self.store.entries();
        let maxd = self.max_display(&es, owner);
        let mut out: Vec<Note> = Vec::new();
        let mut d: u64 = 1;
        while d <= maxd
            invariant
                self.wf(),
                is_listing(es@, map_entries(self.store)),
                maxd == self.count_of(owner@),
                1 <= d,
                d <= maxd + 1,
                out@.len() == d - 1,
                forall|i: int|
                    0 <= i < out@.len() ==> (#[trigger] out@[i])@.owner == owner@
                        && out@[i]@.display_id == i + 1,
                forall|i: int|
                    0 <= i < out@.len() ==> has_id(self.model(), owner@, (i + 1) as u64)
                        && (#[trigger] out@[i])@ == self.model()[key_of(
                        self.model(),
                        owner@,
                        (i + 1) as u64,
                    )],
            decreases maxd + 1 - d,
        {
            let found = self.find_by_id(&es, owner, d);
            match found {
                Some(p) => {
                    proof {
                        let m = self.model();
                        assert(m.contains_key(p.0) && m[p.0].owner == owner@ && m[p.0].display_id
                            == d);
                        assert(has_id(m, owner@, d));
                        let k2 = key_of(m, owner@, d);
                        assert(m.contains_key(k2) && m[k2].owner == owner@ && m[k2].display_id
                            == d);
                        assert(k2 == p.0);
                    }
                    out.push(p.1);
                },
                None => {
                    proof {
                        assert(has_id(self.model(), owner@, d));
                    }
                    unreached()
                },
            }
            d += 1;
        }
        proof {
            assert(views_of(out@).len() == self.count_of(owner@));
            assert forall|i: int| 0 <= i < views_of(out@).len() implies (#[trigger] views_of(
                out@,
            )[i]).owner == owner@ && views_of(out@)[i].display_id == i + 1 by {
                assert(views_of(out@)[i] == out@[i]@);
            }
            assert forall|i: int| 0 <= i < views_of(out@).len() implies has_id(
                self.model(),
                owner@,
                (i + 1) as u64,
            ) && (#[trigger] views_of(out@)[i]) == self.model()[key_of(
                self.model(),
                owner@,
                (i + 1) as u64,
            )] by {
                assert(views_of(out@)[i] == out@[i]@);
                assert(out@[i]@ == self.model()[key_of(self.model(), owner@, (i + 1) as u64)]);
            }
            assert(owner_listing(self.model(), self.count_of(owner@), owner@, views_of(out@)));
        }
        out
    }

    /// Replaces the title and the content of the owner's note numbered
    /// `display_id`, in place: the note keeps its internal key, its owner
    /// and its display id. Fails with `Unauthenticated` for the anonymous
    /// identity, with `NotFound` when the owner has no note with that
    /// number (a note of another owner never matches), and with
    /// `PayloadTooLarge` when the new record would exceed `MAX_NOTE_BYTES`;
    /// in all three cases the store is untouched.
    pub fn edit(
        &mut self,
        owner: &Owner,
        display_id: u64,
        title: String,
        content: String,
    ) -> (r: Result<String, NoteError>)
        requires
            old(self).wf(),
        ensures
            final(self).wf(),
            owner@ == anonymous_bytes() ==> (r matches Err(e) && e == NoteError::Unauthenticated)
                && *final(self) == *old(self),
            owner@ != anonymous_bytes() && !has_id(old(self).model(), owner@, display_id) ==> (
            r matches Err(e) && e == NoteError::NotFound) && *final(self) == *old(self),
            owner@ != anonymous_bytes() && has_id(old(self).model(), owner@, display_id) && !(
            NoteView { display_id, title: title@, content: content@, owner: owner@ }).fits() ==> (
            r matches Err(e) && e == NoteError::PayloadTooLarge) && *final(self) == *old(self),
            owner@ != anonymous_bytes() && has_id(old(self).model(), owner@, display_id) && (
            NoteView { display_id, title: title@, content: content@, owner: owner@ }).fits() ==> (
            r matches Ok(m) && m@ == "Note updated successfully"@) && final(self).model() == old(
                self,
            ).model().insert(
                key_of(old(self).model(), owner@, display_id),
                (NoteView { display_id, title: title@, content: content@, owner: owner@ }),
            ),
            final(self).model().dom() == old(self).model().dom(),
            forall|o: Seq<u8>| final(self).count_of(o) == old(self).count_of(o),
            final(self).next_key() == old(self).next_key(),
            forall|k: u64|
                old(self).model().contains_key(k) && (#[trigger] old(self).model()[k]).owner
                    != owner@ ==> final(self).model()[k] == old(self).model()[k],
    {
        if owner.is_anonymous() {
            return Err(NoteError::Unauthenticated);
        }
        let es = self.store.entries();
        let found = self.find_by_id(&es, owner, display_id);
        let key = match found {
            Some(p) => p.0,
            None => {
                return Err(NoteError::NotFound);
            },
        };
        let tb = title.as_str().as_bytes_vec();
        let cb = content.as_str().as_bytes_vec();
        let ol = owner.bytes.len();
        if ol > MAX_NOTE_BYTES || tb.len() > MAX_NOTE_BYTES || cb.len() > MAX_NOTE_BYTES {
            return Err(NoteError::PayloadTooLarge);
        }
        let total = 12 + ol + tb.len() + cb.len();
        if total > MAX_NOTE_BYTES {
            return Err(NoteError::PayloadTooLarge);
        }
        let ob = slice_to_vec(owner.bytes.as_slice());
        let nn = Note { display_id, title, content, owner: Owner::new(ob) };
        proof {
            let m0 = old(self).notes@;
            let k2 = key_of(m0, owner@, display_id);
            assert(m0.contains_key(key) && m0[key].owner == owner@ && m0[key].display_id
                == display_id);
            assert(m0.contains_key(k2) && m0[k2].owner == owner@ && m0[k2].display_id
                == display_id);
            assert(k2 == key);
            lemma_inv_replace(m0, old(self).counts@, cell_value(old(self).store), key, nn@);
        }
        let bytes = encode_note(&nn);
        let _ = self.store.insert(key, bytes);
        self.notes = Ghost(self.notes@.insert(key, nn@));
        proof {
            assert(map_entries(self.store).dom() =~= self.notes@.dom());
            assert(self.notes@.dom() =~= old(self).notes@.dom());
            assert forall|k: u64| #[trigger] self.notes@.contains_key(k) implies map_entries(
                self.store,
            )[k] == encoding_of(self.notes@[k]) by {
                if k != key {
                    assert(old(self).notes@.contains_key(k));
                }
            }
        }
        Ok("Note updated successfully".to_owned())
    }

    /// Deletes the owner's note numbered `display_id` and closes the gap:
    /// each of the owner's higher-numbered notes moves down one display id,
    /// keeping its internal key; other owners' notes are untouched. Fails
    /// with `Unauthenticated` for the anonymous identity and with `NotFound`
    /// when the owner has no note with that number (a note of another owner
    /// never matches); in both cases the store is untouched.
    pub fn delete(&mut self, owner: &Owner, display_id: u64) -> (r: Result<String, NoteError>)
        requires
            old(self).wf(),
        ensures
            final(self).wf(),
            owner@ == anonymous_bytes() ==> (r matches Err(e) && e == NoteError::Unauthenticated)
                && *final(self) == *old(self),
            owner@ != anonymous_bytes() && !has_id(old(self).model(), owner@, display_id) ==> (
            r matches Err(e) && e == NoteError::NotFound) && *final(self) == *old(self),
            owner@ != anonymous_bytes() && has_id(old(self).model(), owner@, display_id) ==> (
            r matches Ok(m) && m@ == "Note deleted successfully"@) && final(self).model()
                == deleted_model(
                old(self).model(),
                owner@,
                display_id,
                key_of(old(self).model(), owner@, display_id),
            ) && old(self).count_of(owner@) >= 1 && final(self).count_of(owner@) == old(
                self,
            ).count_of(owner@) - 1 && final(self).next_key() == old(self).next_key(),
            forall|o: Seq<u8>| o != owner@ ==> final(self).count_of(o) == old(self).count_of(o),
            forall|k: u64|
                final(self).model().contains_key(k) ==> old(self).model().contains_key(k),
            forall|k: u64|
                old(self).model().contains_key(k) && (#[trigger] old(self).model()[k]).owner
                    != owner@ ==> final(self).model().contains_key(k) && final(self).model()[k]
                    == old(self).model()[k],
    {
        if owner.is_anonymous() {
            return Err(NoteError::Unauthenticated);
        }
        let ghost m0 = self.notes@;
        let ghost ent0 = map_entries(self.store);
        let es = self.store.entries();
        let found = self.find_by_id(&es, owner, display_id);
        let tk = match found {
            Some(p) => p.0,
            None => {
                return Err(NoteError::NotFound);
            },
        };
        proof {
            let k2 = key_of(m0, owner@, display_id);
            assert(m0.contains_key(tk) && m0[tk].owner == owner@ && m0[tk].display_id
                == display_id);
            assert(m0.contains_key(k2) && m0[k2].owner == owner@ && m0[k2].display_id
                == display_id);
            assert(k2 == tk);
            lemma_inv_delete(
                m0,
                old(self).counts@,
                cell_value(old(self).store),
                owner@,
                display_id,
                tk,
            );
        }
        let ghost sm = deleted_model(m0, owner@, display_id, tk);
        let _ = self.store.remove(tk);
        proof {
            assert(map_entries(self.store).dom() =~= m0.dom().remove(tk));
        }
        let n = es.len();
        let mut i: usize = 0;
        while i < n
            invariant
                n == es@.len(),
                i <= n,
                is_listing(es@, ent0),
                cell_value(self.store) == cell_value(old(self).store),
                self.notes == old(self).notes,
                self.counts == old(self).counts,
                m0 == old(self).notes@,
                ent0 == map_entries(old(self).store),
                sm == deleted_model(m0, owner@, display_id, tk),
                old(self).wf(),
                m0.contains_key(tk) && m0[tk].owner == owner@ && m0[tk].display_id == display_id,
                map_entries(self.store).dom() == m0.dom().remove(tk),
                forall|j: int|
                    0 <= j < i ==> ((#[trigger] es@[j]).0 != tk ==> map_entries(
                        self.store,
                    )[es@[j].0] == encoding_of(sm[es@[j].0])),
                forall|j: int|
                    i <= j < n ==> ((#[trigger] es@[j]).0 != tk ==> map_entries(
                        self.store,
                    )[es@[j].0] == ent0[es@[j].0]),
            decreases n - i,
        {
            let kv = &es[i];
            let k = kv.0;
            if k != tk {
                proof {
                    assert(ent0.contains_key(k) && ent0[k] == kv.1@);
                    assert(m0.contains_key(k));
                    assert(encoding_of(m0[k]) == kv.1@);
                    assert(m0[k].fits());
                }
                let note = match decode_note(&kv.1) {
                    Some(nt) => nt,
                    None => unreached(),
                };
                if note.owner == *owner && note.display_id > display_id {
                    let nn = Note {
                        display_id: note.display_id - 1,
                        title: note.title,
                        content: note.content,
                        owner: note.owner,
                    };
                    proof {
                        assert(nn@ == sm[k]);
                        assert(nn@.encoded_len() == m0[k].encoded_len());
                        assert(nn@.fits());
                    }
                    let bytes = encode_note(&nn);
                    let _ = self.store.insert(k, bytes);
                    proof {
                        assert(map_entries(self.store).dom() =~= m0.dom().remove(tk));
                    }
                } else {
                    proof {
                        assert(sm[k] == m0[k]);
                        assert(map_entries(self.store)[k] == encoding_of(sm[k]));
                    }
                }
            }
            i += 1;
        }
        self.notes = Ghost(sm);
        self.counts = Ghost(
            self.counts@.insert(owner@, (count_in(self.counts@, owner@) - 1) as u64),
        );
        proof {
            assert(sm.dom() =~= m0.dom().remove(tk));
            assert(map_entries(self.store).dom() =~= self.notes@.dom());
            assert forall|k: u64| #[trigger] self.notes@.contains_key(k) implies map_entries(
                self.store,
            )[k] == encoding_of(self.notes@[k]) by {
                assert(ent0.contains_key(k));
                let j = choose|j: int| 0 <= j < es@.len() && (#[trigger] es@[j]).0 == k;
                assert(map_entries(self.store)[es@[j].0] == encoding_of(sm[es@[j].0]));
            }
        }
        Ok("Note deleted successfully".to_owned())
    }

    /// Scans for the owner's note with the given display id.
    fn find_by_id(&self, es: &Vec<(u64, Vec<u8>)>, owner: &Owner, display_id: u64) -> (r: Option<
        (u64, Note),
    >)
        requires
            self.wf(),
            is_listing(es@, map_entries(self.store)),
        ensures
            r matches Some(p) ==> self.model().contains_key(p.0) && p.1@ == self.model()[p.0]
                && p.1@.owner == owner@ && p.1@.display_id == display_id,
            r is None ==> !has_id(self.model(), owner@, display_id),
    {
        let n = es.len();
        let mut i: usize = 0;
        while i < n
            invariant
                self.wf(),
                is_listing(es@, map_entries(self.store)),
                n == es@.len(),
                i <= n,
                forall|j: int|
                    0 <= j < i ==> !(self.model()[(#[trigger] es@[j]).0].owner == owner@
                        && self.model()[es@[j].0].display_id == display_id),
            decreases n - i,
        {
            let kv = &es[i];
            let note = self.decode_entry(kv.0, &kv.1);
            if note.owner == *owner && note.display_id == display_id {
                return Some((kv.0, note));
            }
            i += 1;
        }
        proof {
            if has_id(self.model(), owner@, display_id) {
                let k0 = choose|k: u64|
                    #[trigger] self.model().contains_key(k) && self.model()[k].owner == owner@
                        && self.model()[k].display_id == display_id;
                assert(map_entries(self.store).contains_key(k0));
                let j = choose|j: int| 0 <= j < es@.len() && (#[trigger] es@[j]).0 == k0;
                assert(false);
            }
        }
        None
    }
}

/// The set of display ids among owner `o`'s notes.
pub open spec fn owner_ids(m: Map<u64, NoteView>, o: Seq<u8>) -> Set<u64> {
    Set::new(|d: u64| has_id(m, o, d))
}

/// The internal keys of owner `o`'s notes.
pub open spec fn owner_keys(m: Map<u64, NoteView>, o: Seq<u8>) -> Set<u64> {
    m.dom().filter(|k: u64| m[k].owner == o)
}

/// A finite set holding every note of owner `o` numbered up to `c`, whose
/// members' display ids all lie in `1..=c` without repeats, has exactly `c`
/// elements — one per display id.
proof fn lemma_ids_count(m: Map<u64, NoteView>, o: Seq<u8>, c: u64, dom: Set<u64>)
    requires
        dom.finite(),
        forall|k: u64|
            #[trigger] dom.contains(k) ==> m.contains_key(k) && m[k].owner == o && 1
                <= m[k].display_id <= c,
        forall|k1: u64, k2: u64|
            #[trigger] dom.contains(k1) && #[trigger] dom.contains(k2) && m[k1].display_id
                == m[k2].display_id ==> k1 == k2,
        forall|d: u64| 1 <= d <= c ==> #[trigger] has_id(m, o, d),
        forall|k: u64|
            m.contains_key(k) && (#[trigger] m[k]).owner == o && m[k].display_id <= c
                ==> dom.contains(k),
    ensures
        dom.len() == c,
    decreases c,
{
    if c == 0 {
        assert forall|k: u64| #[trigger] dom.contains(k) implies false by {
            assert(1 <= m[k].display_id <= 0);
        }
        assert(dom =~= Set::empty());
    } else {
        assert(has_id(m, o, c));
        let w = choose|k: u64|
            #[trigger] m.contains_key(k) && m[k].owner == o && m[k].display_id == c;
        assert(dom.contains(w));
        let dom2 = dom.remove(w);
        assert forall|k: u64| #[trigger] dom2.contains(k) implies m.contains_key(k) && m[k].owner
            == o && 1 <= m[k].display_id <= c - 1 by {
            assert(dom.contains(k));
            assert(m[k].display_id != c);
        }
        assert forall|k: u64|
            m.contains_key(k) && (#[trigger] m[k]).owner == o && m[k].display_id <= c - 1 implies
            dom2.contains(k) by {
            assert(dom.contains(k));
            assert(m[w].display_id == c);
        }
        lemma_ids_count(m, o, (c - 1) as u64, dom2);
        assert(dom.len() == dom2.len() + 1);
    }
}

/// Display-id contiguity: under the store invariant, the display ids of an
/// owner's notes are exactly the set `1..=n`, and the owner holds exactly
/// `n` notes, where `n` is the owner's recorded count.
pub proof fn lemma_display_contiguity(s: &NoteStore, o: Seq<u8>)
    requires
        s.wf(),
    ensures
        owner_ids(s.model(), o) == Set::new(|d: u64| 1 <= d <= s.count_of(o)),
        owner_keys(s.model(), o).len() == s.count_of(o),
{
    let m = s.model();
    let c = s.count_of(o);
    assert forall|d: u64| #[trigger] owner_ids(m, o).contains(d) implies 1 <= d <= c by {
        let w = choose|k: u64|
            #[trigger] m.contains_key(k) && m[k].owner == o && m[k].display_id == d;
        assert(m.contains_key(w));
    }
    assert forall|d: u64| 1 <= d <= c implies #[trigger] owner_ids(m, o).contains(d) by {
        assert(has_id(m, o, d));
    }
    assert(owner_ids(m, o) =~= Set::new(|d: u64| 1 <= d <= c));
    let dom = owner_keys(m, o);
    m.dom().lemma_len_filter(|k: u64| m[k].owner == o);
    assert forall|k: u64| #[trigger] dom.contains(k) implies m.contains_key(k) && m[k].owner == o
        && 1 <= m[k].display_id <= c by {
        assert(m.dom().contains(k));
    }
    assert forall|k: u64|
        m.contains_key(k) && (#[trigger] m[k]).owner == o && m[k].display_id <= c implies
        dom.contains(k) by {
        assert(m.dom().contains(k));
    }
    lemma_ids_count(m, o, c, dom);
}

/// Owner isolation under `create`: appending a note for one owner under a
/// fresh internal key leaves every other owner's display-id set unchanged.
pub proof fn lemma_insert_isolates_other_owners(
    m0: Map<u64, NoteView>,
    k: u64,
    nv: NoteView,
    oo: Seq<u8>,
)
    requires
        !m0.contains_key(k),
        oo != nv.owner,
    ensures
        owner_ids(m0.insert(k, nv), oo) == owner_ids(m0, oo),
{
    let m1 = m0.insert(k, nv);
    assert forall|d: u64| #[trigger] has_id(m1, oo, d) implies has_id(m0, oo, d) by {
        let w = choose|j: u64|
            #[trigger] m1.contains_key(j) && m1[j].owner == oo && m1[j].display_id == d;
        assert(m0.contains_key(w) && m0[w].owner == oo && m0[w].display_id == d);
    }
    assert forall|d: u64| #[trigger] has_id(m0, oo, d) implies has_id(m1, oo, d) by {
        let w = choose|j: u64|
            #[trigger] m0.contains_key(j) && m0[j].owner == oo && m0[j].display_id == d;
        assert(m1.contains_key(w) && m1[w].owner == oo && m1[w].display_id == d);
    }
    assert(owner_ids(m1, oo) =~= owner_ids(m0, oo));
}

/// Owner isolation under `delete`: deleting one of owner `o`'s notes and
/// renumbering `o`'s survivors leaves every other owner's display-id set
/// unchanged.
pub proof fn lemma_delete_isolates_other_owners(
    m0: Map<u64, NoteView>,
    o: Seq<u8>,
    did: u64,
    tk: u64,
    oo: Seq<u8>,
)
    requires
        m0.contains_key(tk),
        m0[tk].owner == o,
        oo != o,
    ensures
        owner_ids(deleted_model(m0, o, did, tk), oo) == owner_ids(m0, oo),
{
    let m1 = deleted_model(m0, o, did, tk);
    assert forall|d: u64| #[trigger] has_id(m1, oo, d) implies has_id(m0, oo, d) by {
        let w = choose|j: u64|
            #[trigger] m1.contains_key(j) && m1[j].owner == oo && m1[j].display_id == d;
        assert(m0.contains_key(w) && m0[w].owner == oo && m0[w].display_id == d);
    }
    assert forall|d: u64| #[trigger] has_id(m0, oo, d) implies has_id(m1, oo, d) by {
        let w = choose|j: u64|
            #[trigger] m0.contains_key(j) && m0[j].owner == oo && m0[j].display_id == d;
        assert(w != tk);
        assert(m1.contains_key(w) && m1[w].owner == oo && m1[w].display_id == d);
    }
    assert(owner_ids(m1, oo) =~= owner_ids(m0, oo));
}

/// Idempotent listing: the listing contract of `get_notes` determines its
/// result, so two listings of the same owner against the same store state
/// are equal.
pub proof fn lemma_listing_deterministic(
    s: &NoteStore,
    o: Seq<u8>,
    l1: Seq<NoteView>,
    l2: Seq<NoteView>,
)
    requires
        s.wf(),
        owner_listing(s.model(), s.count_of(o), o, l1),
        owner_listing(s.model(), s.count_of(o), o, l2),
    ensures
        l1 == l2,
{
    assert forall|i: int| 0 <= i < l1.len() implies l1[i] == l2[i] by {
        assert(l1[i] == s.model()[key_of(s.model(), o, (i + 1) as u64)]);
        assert(l2[i] == s.model()[key_of(s.model(), o, (i + 1) as u64)]);
    }
    assert(l1 =~= l2);
}

} // verus!
