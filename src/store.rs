use vstd::prelude::*;

use crate::value::Datum;

verus! {

/// One entity of a store: whether it is live, whether it carries the save
/// marker, and its components, indexed by registered type.
struct Slot {
    alive: bool,
    marked: bool,
    comps: Vec<Option<Vec<Datum>>>,
}

/// The mathematical form of an entity.
pub struct SlotView {
    pub alive: bool,
    pub marked: bool,
    pub comps: Seq<Option<Seq<Datum>>>,
}

pub open spec fn opt_view(c: Option<Vec<Datum>>) -> Option<Seq<Datum>> {
    match c {
        Some(v) => Some(v@),
        None => None,
    }
}

impl View for Slot {
    type V = SlotView;

    closed spec fn view(&self) -> SlotView {
        SlotView {
            alive: self.alive,
            marked: self.marked,
            comps: self.comps@.map_values(|c: Option<Vec<Datum>>| opt_view(c)),
        }
    }
}

/// The component of type `t` that an entity holds, if any.
pub open spec fn comp(s: SlotView, t: int) -> Option<Seq<Datum>> {
    if 0 <= t < s.comps.len() {
        s.comps[t]
    } else {
        None
    }
}

/// A freshly spawned entity: live, unmarked, without components.
pub open spec fn empty_slot() -> SlotView {
    SlotView { alive: true, marked: false, comps: Seq::empty() }
}

/// A despawned entity.
pub open spec fn dead_slot() -> SlotView {
    SlotView { alive: false, marked: false, comps: Seq::empty() }
}

/// What clearing the previously persisted entities leaves of an entity.
pub open spec fn cleared(s: SlotView) -> SlotView {
    if s.alive && s.marked {
        dead_slot()
    } else {
        s
    }
}

/// An entity is selected for saving: live and marked.
pub open spec fn selected(s: SlotView) -> bool {
    s.alive && s.marked
}

/// An entity store. An entity's identity is its position; identities are
/// never reused, so a despawned entity keeps its place.
pub struct Store {
    slots: Vec<Slot>,
}

impl View for Store {
    type V = Seq<SlotView>;

    closed spec fn view(&self) -> Seq<SlotView> {
        self.slots@.map_values(|s: Slot| s@)
    }
}

impl Slot {
    fn put(&mut self, t: usize, value: Option<Vec<Datum>>)
        ensures
            final(self).alive == old(self).alive,
            final(self).marked == old(self).marked,
            forall|u: int|
                comp(final(self)@, u) == if u == t {
                    opt_view(value)
                } else {
                    comp(old(self)@, u)
                },
    {
        let ghost value_view = opt_view(value);
        while self.comps.len() <= t
            invariant
                forall|u: int| comp(self@, u) == comp(old(self)@, u),
                self.alive == old(self).alive,
                self.marked == old(self).marked,
            decreases t + 1 - self.comps@.len(),
        {
            let ghost before = self@;
            self.comps.push(None);
            assert(self@.comps =~= before.comps.push(None));
        }
        let ghost before = self@;
        self.comps.set(t, value);
        assert(self@.comps =~= before.comps.update(t as int, value_view));
    }
}

impl Store {
    fn index_of(&self, id: u64) -> (i: usize)
        requires
            id < self@.len(),
        ensures
            i == id,
    {
        let n = self.slots.len();
        assert(id < n);
        id as usize
    }

    /// An empty store.
    pub fn new() -> (r: Store)
        ensures
            r@ == Seq::<SlotView>::empty(),
    {
        let r = Store { slots: Vec::new() };
        assert(r@ =~= Seq::<SlotView>::empty());
        r
    }

    /// Number of identities handed out so far, despawned ones included.
    pub fn len(&self) -> (n: usize)
        ensures
            n == self@.len(),
    {
        self.slots.len()
    }

    /// Creates a live entity with no components and no marker, under an
    /// identity that no entity has had before.
    pub fn spawn(&mut self) -> (id: u64)
        ensures
            id == old(self)@.len(),
            final(self)@ == old(self)@.push(empty_slot()),
    {
        let id = self.slots.len() as u64;
        let ghost before = self@;
        let s = Slot { alive: true, marked: false, comps: Vec::new() };
        assert(s@.comps =~= Seq::<Option<Seq<Datum>>>::empty());
        self.slots.push(s);
        assert(self@ =~= before.push(empty_slot()));
        id
    }

    /// Whether `id` names a live entity.
    pub fn is_alive(&self, id: u64) -> (r: bool)
        ensures
            r == (id < self@.len() && self@[id as int].alive),
    {
        id < self.slots.len() as u64 && self.slots[id as usize].alive
    }

    /// Whether `id` names a live entity that carries the save marker.
    pub fn is_marked(&self, id: u64) -> (r: bool)
        ensures
            r == (id < self@.len() && selected(self@[id as int])),
    {
        id < self.slots.len() as u64 && self.slots[id as usize].alive
            && self.slots[id as usize].marked
    }

    /// The component of type `t` on entity `id`, if it has one.
    pub fn get(&self, id: u64, t: usize) -> (r: Option<&Vec<Datum>>)
        ensures
            match r {
                Some(v) => id < self@.len() && comp(self@[id as int], t as int) == Some(v@),
                None => id >= self@.len() || comp(self@[id as int], t as int) is None,
            },
    {
        if id >= self.slots.len() as u64 {
            return None;
        }
        let s = &self.slots[id as usize];
        if t < s.comps.len() {
            match &s.comps[t] {
                Some(v) => Some(v),
                None => None,
            }
        } else {
            None
        }
    }

    /// Sets the component of type `t` on the live entity `id`, replacing any
    /// earlier one.
    pub fn insert(&mut self, id: u64, t: usize, value: Vec<Datum>)
        requires
            id < old(self)@.len(),
            old(self)@[id as int].alive,
        ensures
            final(self)@.len() == old(self)@.len(),
            forall|j: int| 0 <= j < old(self)@.len() && j != id ==> final(self)@[j] == old(self)@[j],
            final(self)@[id as int].alive,
            final(self)@[id as int].marked == old(self)@[id as int].marked,
            forall|u: int|
                comp(final(self)@[id as int], u) == if u == t {
                    Some(value@)
                } else {
                    comp(old(self)@[id as int], u)
                },
    {
        let ghost before = self@;
        let i = self.index_of(id);
        self.slots[i].put(t, Some(value));
        assert(forall|j: int| 0 <= j < before.len() && j != id ==> self@[j] == before[j]);
    }

    /// Gives the live entity `id` the save marker, or takes it away.
    pub fn set_marked(&mut self, id: u64, marked: bool)
        requires
            id < old(self)@.len(),
            old(self)@[id as int].alive,
        ensures
            final(self)@ == old(self)@.update(
                id as int,
                SlotView { marked, ..old(self)@[id as int] },
            ),
    {
        let ghost before = self@;
        let i = self.index_of(id);
        self.slots[i].marked = marked;
        assert(self@ =~= before.update(id as int, SlotView { marked, ..before[id as int] }));
    }

    /// Removes the entity `id` with its components; its identity is not reused.
    pub fn despawn(&mut self, id: u64)
        requires
            id < old(self)@.len(),
        ensures
            final(self)@ == old(self)@.update(id as int, dead_slot()),
    {
        let ghost before = self@;
        let s = Slot { alive: false, marked: false, comps: Vec::new() };
        assert(s@.comps =~= Seq::<Option<Seq<Datum>>>::empty());
        let i = self.index_of(id);
        self.slots.set(i, s);
        assert(self@ =~= before.update(id as int, dead_slot()));
    }

    /// Removes every entity; afterwards the store is as new.
    pub fn clear_all(&mut self)
        ensures
            final(self)@ == Seq::<SlotView>::empty(),
    {
        self.slots = Vec::new();
        assert(self@ =~= Seq::<SlotView>::empty());
    }

    /// Despawns every live entity that carries the save marker, leaving the
    /// others as they are.
    pub fn clear_marked(&mut self)
        ensures
            final(self)@.len() == old(self)@.len(),
            forall|i: int| 0 <= i < old(self)@.len() ==> final(self)@[i] == cleared(old(self)@[i]),
    {
        let mut i: usize = 0;
        while i < self.slots.len()
            invariant
                i <= self@.len(),
                self@.len() == old(self)@.len(),
                forall|k: int| 0 <= k < i ==> self@[k] == cleared(old(self)@[k]),
                forall|k: int| i <= k < self@.len() ==> self@[k] == old(self)@[k],
            decreases self@.len() - i,
        {
            if self.slots[i].alive && self.slots[i].marked {
                self.despawn(i as u64);
            }
            i = i + 1;
        }
    }
}

} // verus!
