use vstd::prelude::*;

use std::collections::HashMap;

use crate::store::{empty_slot, SlotView, Store};

verus! {

broadcast use vstd::std_specs::hash::group_hash_axioms;

/// No two raw identities map to the same live identity.
pub open spec fn injective(m: Map<u64, u64>) -> bool {
    forall|a: u64, b: u64|
        m.contains_key(a) && m.contains_key(b) && a != b ==> #[trigger] m[a] != #[trigger] m[b]
}

/// Some key of `m` maps to `id`.
pub open spec fn hits(m: Map<u64, u64>, id: int) -> bool {
    exists|a: u64| #[trigger] m.contains_key(a) && m[a] == id
}

/// `m` maps its keys one to one onto the identities `lo .. hi`.
pub open spec fn fills(m: Map<u64, u64>, lo: int, hi: int) -> bool {
    &&& lo <= hi
    &&& injective(m)
    &&& forall|a: u64| #[trigger] m.contains_key(a) ==> lo <= m[a] < hi
    &&& forall|id: int| lo <= id < hi ==> #[trigger] hits(m, id)
}

/// One resolution of `raw` took the table from `before` to `after` and gave
/// `live`: a known identity keeps its entry, an unknown one gets a live
/// identity that no entry held.
pub open spec fn resolved(before: Map<u64, u64>, raw: u64, live: u64, after: Map<u64, u64>) -> bool {
    if before.contains_key(raw) {
        live == before[raw] && after == before
    } else {
        &&& after == before.insert(raw, live)
        &&& forall|a: u64| #[trigger] before.contains_key(a) ==> before[a] != live
    }
}

/// A store grew only by new empty entities at its end.
pub open spec fn grows(s: Seq<SlotView>, s2: Seq<SlotView>) -> bool {
    &&& s2.len() >= s.len()
    &&& forall|i: int| 0 <= i < s.len() ==> s2[i] == s[i]
    &&& forall|i: int| s.len() <= i < s2.len() ==> s2[i] == empty_slot()
}

/// The correspondence between the identities recorded in one document and
/// the live entities that stand for them in the store being loaded into.
/// Entries are only ever added.
pub struct RemapTable {
    map: HashMap<u64, u64>,
    origin: Ghost<Seq<SlotView>>,
}

impl View for RemapTable {
    type V = Map<u64, u64>;

    closed spec fn view(&self) -> Map<u64, u64> {
        self.map@
    }
}

impl RemapTable {
    /// The store as it was when the table was created.
    pub closed spec fn origin(&self) -> Seq<SlotView> {
        self.origin@
    }

    /// The number of entities the store held when the table was created; every
    /// live identity in the table lies at or above it.
    pub open spec fn base(&self) -> int {
        self.origin().len() as int
    }

    /// The table maps one to one onto the entities created since it began,
    /// given that the store now holds `len` identities.
    pub open spec fn inv(&self, len: int) -> bool {
        fills(self@, self.base(), len)
    }

    /// An empty table for loading into `store`.
    pub fn new(store: &Store) -> (r: RemapTable)
        ensures
            r@ == Map::<u64, u64>::empty(),
            r.origin() == store@,
            r.inv(store@.len() as int),
    {
        RemapTable { map: HashMap::new(), origin: Ghost(store@) }
    }

    /// The live identity that stands for `raw`, if it has one yet.
    pub fn lookup(&self, raw: u64) -> (r: Option<u64>)
        ensures
            match r {
                Some(live) => self@.contains_key(raw) && self@[raw] == live,
                None => !self@.contains_key(raw),
            },
    {
        match self.map.get(&raw) {
            Some(live) => Some(*live),
            None => None,
        }
    }

    /// The live identity that stands for `raw`: the one recorded, or else a new
    /// empty entity of `store`, which is recorded.
    pub fn resolve(&mut self, raw: u64, store: &mut Store) -> (live: u64)
        requires
            old(self).inv(old(store)@.len() as int),
        ensures
            final(self).origin() == old(self).origin(),
            final(self).inv(final(store)@.len() as int),
            resolved(old(self)@, raw, live, final(self)@),
            final(self)@.contains_key(raw),
            final(self)@[raw] == live,
            grows(old(store)@, final(store)@),
            old(self)@.contains_key(raw) ==> final(store)@ == old(store)@,
            !old(self)@.contains_key(raw) ==> live == old(store)@.len() && final(store)@ == old(
                store,
            )@.push(empty_slot()),
    {
        match self.lookup(raw) {
            Some(live) => live,
            None => {
                let live = store.spawn();
                let ghost before = self@;
                self.map.insert(raw, live);
                assert(injective(self@));
                assert forall|id: int| self.base() <= id < store@.len() implies #[trigger] hits(self@, id) by {
                    if id == live {
                        assert(self@.contains_key(raw) && self@[raw] == id);
                    } else {
                        assert(hits(before, id));
                        let a = choose|a: u64| #[trigger] before.contains_key(a) && before[a] == id;
                        assert(self@.contains_key(a) && self@[a] == id);
                    }
                }
                live
            },
        }
    }
}

} // verus!
