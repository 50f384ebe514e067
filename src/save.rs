use vstd::prelude::*;

use crate::document::{Column, ColumnView, Document, Row, RowView};
use crate::registry::{Registry, TypeSpec};
use crate::store::{comp, selected, SlotView, Store};
use crate::value::{check_value, conforms, copy_value};

verus! {

/// The rows that saving takes, for type `t`, from the first `n` entities of
/// `s`: one per marked live entity holding a component of that type, in order
/// of identity.
pub open spec fn select_upto(s: Seq<SlotView>, t: int, n: int) -> Seq<RowView>
    decreases n,
{
    if n <= 0 {
        Seq::empty()
    } else {
        let prev = select_upto(s, t, n - 1);
        let e = s[n - 1];
        if selected(e) && comp(e, t) is Some {
            prev.push(RowView { raw: (n - 1) as u64, value: comp(e, t)->Some_0 })
        } else {
            prev
        }
    }
}

/// The rows that saving takes from `s` for type `t`.
pub open spec fn select_spec(s: Seq<SlotView>, t: int) -> Seq<RowView> {
    select_upto(s, t, s.len() as int)
}

/// Every selected component matches its type's schema.
pub open spec fn encodable(s: Seq<SlotView>, reg: Seq<TypeSpec>) -> bool {
    forall|t: int, k: int|
        0 <= t < reg.len() && 0 <= k < select_spec(s, t).len() ==> conforms(
            reg[t].fields,
            #[trigger] select_spec(s, t)[k].value,
        )
}

/// The document that saving `s` produces: every registered type, in order,
/// with its rows (possibly none).
pub open spec fn save_spec(s: Seq<SlotView>, reg: Seq<TypeSpec>) -> Seq<ColumnView> {
    Seq::new(
        reg.len(),
        |t: int| ColumnView { name: reg[t].name, rows: select_spec(s, t) },
    )
}

/// A component that cannot be encoded: it does not match its type's schema.
#[derive(Clone, Copy, Debug, PartialEq, Eq)]
pub struct EncodeError {
    pub type_index: usize,
    pub entity: u64,
}

/// The marked live entities that hold a component of type `t`, with a copy
/// of that component, in order of identity.
pub fn select(store: &Store, t: usize) -> (rows: Vec<Row>)
    ensures
        rows@.map_values(|r: Row| r@) == select_spec(store@, t as int),
{
    let mut rows: Vec<Row> = Vec::new();
    let n = store.len();
    let mut i: usize = 0;
    while i < n
        invariant
            n == store@.len(),
            i <= n,
            rows@.map_values(|r: Row| r@) == select_upto(store@, t as int, i as int),
        decreases n - i,
    {
        let id = i as u64;
        let ghost before = rows@.map_values(|r: Row| r@);
        if store.is_marked(id) {
            match store.get(id, t) {
                Some(v) => {
                    let row = Row { raw: id, value: copy_value(v) };
                    rows.push(row);
                    assert(rows@.map_values(|r: Row| r@) =~= before.push(row@));
                },
                None => {},
            }
        }
        i = i + 1;
    }
    rows
}

/// Encodes the selected components of one registered type.
pub trait SerializeComponents {
    /// The component types known to the encoder, in order.
    spec fn schema(&self) -> Seq<TypeSpec>;

    /// The column for type `t`: the type's name, and one row per marked live
    /// entity holding a component of that type, in order of identity. Fails
    /// if one of those components does not match the type's schema.
    fn serialize(&self, store: &Store, t: usize) -> (r: Result<Column, EncodeError>)
        requires
            t < self.schema().len(),
        ensures
            match r {
                Ok(c) => {
                    &&& c@ == (ColumnView {
                        name: self.schema()[t as int].name,
                        rows: select_spec(store@, t as int),
                    })
                    &&& forall|k: int|
                        0 <= k < select_spec(store@, t as int).len() ==> conforms(
                            self.schema()[t as int].fields,
                            #[trigger] select_spec(store@, t as int)[k].value,
                        )
                },
                Err(e) => {
                    &&& e.type_index == t
                    &&& e.entity < store@.len()
                    &&& selected(store@[e.entity as int])
                    &&& comp(store@[e.entity as int], t as int) is Some
                    &&& !conforms(
                        self.schema()[t as int].fields,
                        comp(store@[e.entity as int], t as int)->Some_0,
                    )
                },
            },
    ;
}

impl SerializeComponents for Registry {
    open spec fn schema(&self) -> Seq<TypeSpec> {
        self@
    }

    fn serialize(&self, store: &Store, t: usize) -> (r: Result<Column, EncodeError>) {
        let ty = self.type_at(t);
        let rows = select(store, t);
        let ne = store.len();
        let ghost sel = select_spec(store@, t as int);
        assert(rows@.len() == sel.len());
        let mut k: usize = 0;
        while k < rows.len()
            invariant
                t < self@.len(),
                ne == store@.len(),
                sel == select_spec(store@, t as int),
                k <= rows@.len(),
                rows@.len() == sel.len(),
                rows@.map_values(|r: Row| r@) == sel,
                ty@ == self@[t as int],
                forall|j: int| 0 <= j < k ==> conforms(self@[t as int].fields, #[trigger] sel[j].value),
            decreases rows@.len() - k,
        {
            assert(sel[k as int] == rows@[k as int]@);
            if !check_value(&ty.fields, &rows[k].value) {
                proof {
                    crate::laws::lemma_select_sound(store@, t as int, store@.len() as int, k as int);
                }
                return Err(EncodeError { type_index: t, entity: rows[k].raw });
            }
            k = k + 1;
        }
        let col = Column { name: ty.name.clone(), rows };
        assert(col@.rows =~= sel);
        Ok(col)
    }
}

/// Encodes the marked entities of `store`: a column for every registered
/// type, in registry order, holding that type's selected rows, possibly none.
/// Fails if a selected component does not match its type's schema.
pub fn save(store: &Store, reg: &Registry) -> (r: Result<Document, EncodeError>)
    ensures
        match r {
            Ok(d) => encodable(store@, reg@) && d@ == save_spec(store@, reg@),
            Err(e) => {
                &&& !encodable(store@, reg@)
                &&& e.type_index < reg@.len()
                &&& e.entity < store@.len()
                &&& selected(store@[e.entity as int])
                &&& comp(store@[e.entity as int], e.type_index as int) is Some
                &&& !conforms(
                    reg@[e.type_index as int].fields,
                    comp(store@[e.entity as int], e.type_index as int)->Some_0,
                )
            },
        },
{
    let mut columns: Vec<Column> = Vec::new();
    let nt = reg.len();
    let ne = store.len();
    let mut t: usize = 0;
    while t < nt
        invariant
            nt == reg@.len(),
            ne == store@.len(),
            t <= nt,
            columns@.map_values(|c: Column| c@) == save_spec(store@, reg@).subrange(0, t as int),
            forall|u: int, k: int|
                0 <= u < t && 0 <= k < select_spec(store@, u).len() ==> conforms(
                    reg@[u].fields,
                    #[trigger] select_spec(store@, u)[k].value,
                ),
        decreases nt - t,
    {
        match reg.serialize(store, t) {
            Err(e) => {
                proof {
                    crate::laws::lemma_select_complete(store@, t as int, store@.len() as int, e.entity as int);
                    let k = choose|k: int|
                        0 <= k < select_spec(store@, t as int).len() && #[trigger] select_spec(
                            store@,
                            t as int,
                        )[k] == (RowView {
                            raw: e.entity,
                            value: comp(store@[e.entity as int], t as int)->Some_0,
                        });
                    assert(!conforms(reg@[t as int].fields, select_spec(store@, t as int)[k].value));
                }
                return Err(e);
            },
            Ok(col) => {
                let ghost before = columns@.map_values(|c: Column| c@);
                let ghost cv = col@;
                columns.push(col);
                assert(columns@.map_values(|c: Column| c@) =~= before.push(cv));
                assert(columns@.map_values(|c: Column| c@) =~= save_spec(store@, reg@).subrange(
                    0,
                    t + 1,
                ));
            },
        }
        t = t + 1;
    }
    assert(save_spec(store@, reg@).subrange(0, nt as int) =~= save_spec(store@, reg@));
    Ok(Document { columns })
}

} // verus!
