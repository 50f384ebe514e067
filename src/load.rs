use vstd::prelude::*;

use std::collections::HashSet;

use crate::document::{column_for, find_column, ColumnView, Document, Row, RowView};
use crate::registry::{has_name, Registry, TypeSpec};
use crate::remap::{fills, grows, RemapTable};
use crate::store::{cleared, comp, empty_slot, SlotView, Store};
use crate::value::{
    check_value, conforms, copy_datum, refs_of, remap_datum, remap_value, Datum, FieldDesc,
    FieldSpec,
};

verus! {

broadcast use vstd::std_specs::hash::group_hash_axioms;

/// The rows that loading reads for registered type `t`.
pub open spec fn col_rows(reg: Seq<TypeSpec>, doc: Seq<ColumnView>, t: int) -> Seq<RowView> {
    column_for(doc, reg[t].name)
}

/// A column can be decoded: each value matches the schema, and no owner
/// appears twice.
pub open spec fn column_ok(fields: Seq<FieldSpec>, rows: Seq<RowView>) -> bool {
    &&& forall|k: int| 0 <= k < rows.len() ==> conforms(fields, #[trigger] rows[k].value)
    &&& forall|j: int, k: int|
        0 <= j < k < rows.len() ==> #[trigger] rows[j].raw != #[trigger] rows[k].raw
}

/// Every column that loading reads can be decoded.
pub open spec fn decodable(reg: Seq<TypeSpec>, doc: Seq<ColumnView>) -> bool {
    forall|t: int| 0 <= t < reg.len() ==> column_ok(reg[t].fields, #[trigger] col_rows(reg, doc, t))
}

/// A row names `raw`, as its owner or in an entity field.
pub open spec fn mentions_row(fields: Seq<FieldSpec>, row: RowView, raw: u64) -> bool {
    row.raw == raw || refs_of(fields, row.value).contains(raw)
}

/// Row `j` of type `u` comes before row `k` of type `t` in loading order.
pub open spec fn before(reg: Seq<TypeSpec>, doc: Seq<ColumnView>, t: int, k: int, u: int, j: int) -> bool {
    &&& 0 <= u < reg.len()
    &&& 0 <= j < col_rows(reg, doc, u).len()
    &&& (u < t || (u == t && j < k))
}

/// Some row before row `k` of type `t` names `raw`.
pub open spec fn mentioned_upto(
    reg: Seq<TypeSpec>,
    doc: Seq<ColumnView>,
    t: int,
    k: int,
    raw: u64,
) -> bool {
    exists|u: int, j: int|
        before(reg, doc, t, k, u, j) && mentions_row(reg[u].fields, #[trigger] col_rows(reg, doc, u)[j], raw)
}

/// Some row before row `k` of type `t` is owned by `raw`.
pub open spec fn owned_upto(reg: Seq<TypeSpec>, doc: Seq<ColumnView>, t: int, k: int, raw: u64) -> bool {
    exists|u: int, j: int| before(reg, doc, t, k, u, j) && #[trigger] col_rows(reg, doc, u)[j].raw == raw
}

/// Some row that loading reads names `raw`.
pub open spec fn mentioned(reg: Seq<TypeSpec>, doc: Seq<ColumnView>, raw: u64) -> bool {
    mentioned_upto(reg, doc, reg.len() as int, 0, raw)
}

/// Some row that loading reads is owned by `raw`.
pub open spec fn owned(reg: Seq<TypeSpec>, doc: Seq<ColumnView>, raw: u64) -> bool {
    owned_upto(reg, doc, reg.len() as int, 0, raw)
}

/// The store `s` holds what loading the rows before row `k` of type `t` into
/// `old` gives, with `m` standing for the remap table.
pub open spec fn progress(
    old: Seq<SlotView>,
    reg: Seq<TypeSpec>,
    doc: Seq<ColumnView>,
    t: int,
    k: int,
    m: Map<u64, u64>,
    s: Seq<SlotView>,
) -> bool {
    &&& fills(m, old.len() as int, s.len() as int)
    &&& forall|i: int| 0 <= i < old.len() ==> s[i] == cleared(old[i])
    &&& forall|raw: u64| m.contains_key(raw) <==> mentioned_upto(reg, doc, t, k, raw)
    &&& forall|u: int, j: int|
        before(reg, doc, t, k, u, j) ==> comp(s[m[#[trigger] col_rows(reg, doc, u)[j].raw] as int], u)
            == Some(remap_value(reg[u].fields, col_rows(reg, doc, u)[j].value, m))
    &&& forall|raw: u64|
        #[trigger] m.contains_key(raw) ==> s[m[raw] as int].alive && (s[m[raw] as int].marked
            <==> owned_upto(reg, doc, t, k, raw))
    &&& forall|raw: u64, u: int|
        m.contains_key(raw) && (#[trigger] comp(s[m[raw] as int], u)) is Some ==> exists|j: int|
            before(reg, doc, t, k, u, j) && #[trigger] col_rows(reg, doc, u)[j].raw == raw
}

/// Loading `doc` into `old` gave `new`, with `m` the correspondence from the
/// document's identities to the new live ones: the previously persisted
/// entities are gone and the others untouched; every identity the document
/// names, as an owner or as a reference, has exactly one new live entity;
/// each row's component stands on its owner's entity with its references
/// rewritten; an entity carries the marker exactly when it owns a row; and no
/// entity holds a component that no row gave it.
pub open spec fn loaded(
    old: Seq<SlotView>,
    reg: Seq<TypeSpec>,
    doc: Seq<ColumnView>,
    m: Map<u64, u64>,
    new: Seq<SlotView>,
) -> bool {
    progress(old, reg, doc, reg.len() as int, 0, m, new)
}

} // verus!

verus! {

/// Every entry of `m` stands unchanged in `m2`.
pub open spec fn extends(m: Map<u64, u64>, m2: Map<u64, u64>) -> bool {
    forall|a: u64| #[trigger] m.contains_key(a) ==> m2.contains_key(a) && m2[a] == m[a]
}

/// The entity that an entry of the table was created for, before `s` grew.
pub open spec fn prior(s: Seq<SlotView>, i: int) -> SlotView {
    if i < s.len() {
        s[i]
    } else {
        empty_slot()
    }
}

/// Decoding `row` as a component of type `t` took the table from `m` to `m2`
/// and the store from `s` to `s2`: the identities the row names were
/// resolved, new entities are empty but for the owner's, and the owner's
/// entity is marked and holds the component with its references rewritten.
pub open spec fn row_decoded(
    m: Map<u64, u64>,
    s: Seq<SlotView>,
    t: int,
    fields: Seq<FieldSpec>,
    row: RowView,
    m2: Map<u64, u64>,
    s2: Seq<SlotView>,
) -> bool {
    let live = m2[row.raw] as int;
    &&& extends(m, m2)
    &&& forall|raw: u64| #[trigger] m2.contains_key(raw) <==> (m.contains_key(raw) || mentions_row(fields, row, raw))
    &&& s2.len() >= s.len()
    &&& live < s2.len()
    &&& forall|i: int| 0 <= i < s2.len() && i != live ==> #[trigger] s2[i] == prior(s, i)
    &&& s2[live].alive
    &&& s2[live].marked
    &&& forall|u: int|
        #[trigger] comp(s2[live], u) == if u == t {
            Some(remap_value(fields, row.value, m2))
        } else {
            comp(prior(s, live), u)
        }
}

/// Why a document cannot be loaded.
#[derive(Clone, Copy, Debug, PartialEq, Eq)]
pub enum DecodeError {
    /// The value in this row does not match its type's schema.
    Malformed { type_index: usize, row: usize },
    /// This row's owner already owns an earlier row of the same type.
    DuplicateOwner { type_index: usize, row: usize },
}

/// Rewrites each entity reference of a conforming value to the live identity
/// that stands for it, resolving identities not seen before.
fn rewrite_value(
    fields: &Vec<FieldDesc>,
    vals: &Vec<Datum>,
    table: &mut RemapTable,
    store: &mut Store,
) -> (r: Vec<Datum>)
    requires
        old(table).inv(old(store)@.len() as int),
        conforms(fields@.map_values(|f: FieldDesc| f@), vals@),
    ensures
        final(table).origin() == old(table).origin(),
        final(table).inv(final(store)@.len() as int),
        extends(old(table)@, final(table)@),
        forall|raw: u64|
            #[trigger] final(table)@.contains_key(raw) <==> (old(table)@.contains_key(raw)
                || refs_of(fields@.map_values(|f: FieldDesc| f@), vals@).contains(raw)),
        grows(old(store)@, final(store)@),
        r@ == remap_value(fields@.map_values(|f: FieldDesc| f@), vals@, final(table)@),
{
    let ghost fs = fields@.map_values(|f: FieldDesc| f@);
    let mut r: Vec<Datum> = Vec::new();
    let mut i: usize = 0;
    while i < vals.len()
        invariant
            fs == fields@.map_values(|f: FieldDesc| f@),
            conforms(fs, vals@),
            i <= vals@.len(),
            table.origin() == old(table).origin(),
            table.inv(store@.len() as int),
            extends(old(table)@, table@),
            forall|raw: u64|
                #[trigger] table@.contains_key(raw) <==> (old(table)@.contains_key(raw) || exists|j: int|
                    0 <= j < i && #[trigger] fs[j].entity && vals@[j] == Datum::Nat(raw)),
            grows(old(store)@, store@),
            r@.len() == i,
            forall|j: int| 0 <= j < i ==> r@[j] == remap_datum(fs[j], vals@[j], table@),
        decreases vals@.len() - i,
    {
        let ghost m0 = table@;
        let ghost s0 = store@;
        if fields[i].entity {
            assert(fs[i as int].entity);
            match &vals[i] {
                Datum::Nat(n) => {
                    let live = table.resolve(*n, store);
                    r.push(Datum::Nat(live));
                    assert forall|raw: u64|
                        #[trigger] table@.contains_key(raw) <==> (old(table)@.contains_key(raw)
                            || exists|j: int|
                            0 <= j < i + 1 && #[trigger] fs[j].entity && vals@[j] == Datum::Nat(
                                raw,
                            )) by {
                        if raw == *n {
                            assert(fs[i as int].entity && vals@[i as int] == Datum::Nat(raw));
                        }
                        if exists|j: int|
                            0 <= j < i + 1 && #[trigger] fs[j].entity && vals@[j] == Datum::Nat(raw) {
                            let j = choose|j: int|
                                0 <= j < i + 1 && #[trigger] fs[j].entity && vals@[j] == Datum::Nat(
                                    raw,
                                );
                            if j < i {
                                assert(m0.contains_key(raw));
                            }
                        }
                    }
                },
                _ => {
                    r.push(copy_datum(&vals[i]));
                },
            }
        } else {
            r.push(copy_datum(&vals[i]));
            assert forall|raw: u64|
                #[trigger] table@.contains_key(raw) <==> (old(table)@.contains_key(raw) || exists|j: int|
                    0 <= j < i + 1 && #[trigger] fs[j].entity && vals@[j] == Datum::Nat(raw)) by {
                if exists|j: int| 0 <= j < i + 1 && #[trigger] fs[j].entity && vals@[j] == Datum::Nat(raw) {
                    let j = choose|j: int|
                        0 <= j < i + 1 && #[trigger] fs[j].entity && vals@[j] == Datum::Nat(raw);
                    assert(j < i);
                }
            }
        }
        assert forall|j: int| 0 <= j < i + 1 implies r@[j] == remap_datum(fs[j], vals@[j], table@) by {
            if j < i && fs[j].entity && vals@[j] is Nat {
                assert(m0.contains_key(vals@[j]->Nat_0));
            }
        }
        i = i + 1;
    }
    assert(r@ =~= remap_value(fs, vals@, table@));
    assert forall|raw: u64|
        #[trigger] table@.contains_key(raw) <==> (old(table)@.contains_key(raw) || refs_of(
            fs,
            vals@,
        ).contains(raw)) by {
        if refs_of(fs, vals@).contains(raw) {
            let j = choose|j: int|
                0 <= j < fs.len() && j < vals@.len() && #[trigger] fs[j].entity && vals@[j]
                    == Datum::Nat(raw);
            assert(table@.contains_key(raw));
        }
    }
    r
}

} // verus!

verus! {

/// Decodes one row as a component of type `t`: resolves its owner, rewrites
/// its references, and puts the component and the marker on the owner's
/// entity.
fn decode_row(
    store: &mut Store,
    table: &mut RemapTable,
    t: usize,
    fields: &Vec<FieldDesc>,
    row: &Row,
)
    requires
        old(table).inv(old(store)@.len() as int),
        conforms(fields@.map_values(|f: FieldDesc| f@), row.value@),
        forall|i: int| old(table).base() <= i < old(store)@.len() ==> #[trigger] old(store)@[i].alive,
    ensures
        final(table).origin() == old(table).origin(),
        final(table).inv(final(store)@.len() as int),
        row_decoded(
            old(table)@,
            old(store)@,
            t as int,
            fields@.map_values(|f: FieldDesc| f@),
            row@,
            final(table)@,
            final(store)@,
        ),
{
    let ghost fs = fields@.map_values(|f: FieldDesc| f@);
    let ghost m0 = table@;
    let ghost s0 = store@;
    let live = table.resolve(row.raw, store);
    let ghost s1 = store@;
    let value = rewrite_value(fields, &row.value, table, store);
    let ghost s2 = store@;
    assert(s2[live as int] == prior(s0, live as int));
    store.insert(live, t, value);
    let ghost s3 = store@;
    store.set_marked(live, true);
    assert forall|raw: u64|
        #[trigger] table@.contains_key(raw) <==> (m0.contains_key(raw) || mentions_row(fs, row@, raw)) by {
    }
    assert forall|i: int| 0 <= i < store@.len() && i != live implies #[trigger] store@[i] == prior(s0, i) by {
        assert(store@[i] == s3[i]);
        assert(s3[i] == s2[i]);
    }
    assert forall|u: int|
        #[trigger] comp(store@[live as int], u) == if u == t {
            Some(remap_value(fs, row.value@, table@))
        } else {
            comp(prior(s0, live as int), u)
        } by {
        assert(comp(store@[live as int], u) == comp(s3[live as int], u));
    }
}

/// Checks that a column can be decoded against the schema of type `t`.
fn check_column(t: usize, fields: &Vec<FieldDesc>, rows: &Vec<Row>) -> (r: Result<(), DecodeError>)
    ensures
        match r {
            Ok(()) => column_ok(fields@.map_values(|f: FieldDesc| f@), rows@.map_values(|r: Row| r@)),
            Err(DecodeError::Malformed { type_index, row }) => {
                &&& type_index == t
                &&& row < rows@.len()
                &&& !conforms(fields@.map_values(|f: FieldDesc| f@), rows@[row as int].value@)
            },
            Err(DecodeError::DuplicateOwner { type_index, row }) => {
                &&& type_index == t
                &&& row < rows@.len()
                &&& exists|j: int| 0 <= j < row && #[trigger] rows@[j].raw == rows@[row as int].raw
            },
        },
{
    let ghost rs = rows@.map_values(|r: Row| r@);
    let mut seen: HashSet<u64> = HashSet::new();
    let mut k: usize = 0;
    while k < rows.len()
        invariant
            rs == rows@.map_values(|r: Row| r@),
            k <= rows@.len(),
            forall|j: int| 0 <= j < k ==> conforms(fields@.map_values(|f: FieldDesc| f@), #[trigger] rs[j].value),
            forall|i: int, j: int| 0 <= i < j < k ==> #[trigger] rs[i].raw != #[trigger] rs[j].raw,
            forall|raw: u64| seen@.contains(raw) <==> exists|j: int| 0 <= j < k && #[trigger] rs[j].raw == raw,
        decreases rows@.len() - k,
    {
        assert(rs[k as int] == rows@[k as int]@);
        if !check_value(fields, &rows[k].value) {
            return Err(DecodeError::Malformed { type_index: t, row: k });
        }
        if seen.contains(&rows[k].raw) {
            let ghost j = choose|j: int| 0 <= j < k && #[trigger] rs[j].raw == rows[k as int].raw;
            assert(rows@[j].raw == rows@[k as int].raw);
            return Err(DecodeError::DuplicateOwner { type_index: t, row: k });
        }
        seen.insert(rows[k].raw);
        assert forall|raw: u64| seen@.contains(raw) implies exists|j: int|
            0 <= j < k + 1 && #[trigger] rs[j].raw == raw by {
            if raw == rows[k as int].raw {
                assert(rs[k as int].raw == raw);
            }
        }
        k = k + 1;
    }
    Ok(())
}

} // verus!

verus! {

/// Rewriting through a larger table changes nothing once the value's
/// references are all known.
proof fn lemma_remap_stable(fields: Seq<FieldSpec>, v: Seq<Datum>, m: Map<u64, u64>, m2: Map<u64, u64>)
    requires
        extends(m, m2),
        forall|e: u64| refs_of(fields, v).contains(e) ==> m.contains_key(e),
    ensures
        remap_value(fields, v, m) == remap_value(fields, v, m2),
{
    assert forall|i: int| 0 <= i < v.len() implies remap_value(fields, v, m)[i] == remap_value(
        fields,
        v,
        m2,
    )[i] by {
        if i < fields.len() && fields[i].entity && v[i] is Nat {
            let e = v[i]->Nat_0;
            assert(v[i] == Datum::Nat(e));
            assert(refs_of(fields, v).contains(e));
            assert(m.contains_key(e));
            assert(m2[e] == m[e]);
        }
    }
    assert(remap_value(fields, v, m) =~= remap_value(fields, v, m2));
}

/// Decoding one more row keeps the loading invariant.
proof fn lemma_step(
    old: Seq<SlotView>,
    reg: Seq<TypeSpec>,
    doc: Seq<ColumnView>,
    t: int,
    k: int,
    m: Map<u64, u64>,
    s: Seq<SlotView>,
    m2: Map<u64, u64>,
    s2: Seq<SlotView>,
)
    requires
        0 <= t < reg.len(),
        0 <= k < col_rows(reg, doc, t).len(),
        progress(old, reg, doc, t, k, m, s),
        column_ok(reg[t].fields, col_rows(reg, doc, t)),
        row_decoded(m, s, t, reg[t].fields, col_rows(reg, doc, t)[k], m2, s2),
        fills(m2, old.len() as int, s2.len() as int),
    ensures
        progress(old, reg, doc, t, k + 1, m2, s2),
{
    let row = col_rows(reg, doc, t)[k];
    let live = m2[row.raw] as int;
    let n0 = old.len() as int;
    assert(m2.contains_key(row.raw));
    // identities named so far
    assert forall|raw: u64| m2.contains_key(raw) <==> mentioned_upto(reg, doc, t, k + 1, raw) by {
        if m2.contains_key(raw) {
            if !m.contains_key(raw) {
                assert(mentions_row(reg[t].fields, row, raw));
                assert(before(reg, doc, t, k + 1, t, k));
            } else {
                let (u, j) = choose|u: int, j: int|
                    before(reg, doc, t, k, u, j) && mentions_row(
                        reg[u].fields,
                        #[trigger] col_rows(reg, doc, u)[j],
                        raw,
                    );
                assert(before(reg, doc, t, k + 1, u, j));
            }
        }
        if mentioned_upto(reg, doc, t, k + 1, raw) {
            let (u, j) = choose|u: int, j: int|
                before(reg, doc, t, k + 1, u, j) && mentions_row(
                    reg[u].fields,
                    #[trigger] col_rows(reg, doc, u)[j],
                    raw,
                );
            if u == t && j == k {
            } else {
                assert(before(reg, doc, t, k, u, j));
                assert(mentioned_upto(reg, doc, t, k, raw));
            }
        }
    }
    // an identity new to the table has an entity that did not exist before
    assert forall|raw: u64| m2.contains_key(raw) && !m.contains_key(raw) implies m2[raw] >= s.len() by {
        if m2[raw] < s.len() {
            assert(crate::remap::hits(m, m2[raw] as int));
            let a = choose|a: u64| #[trigger] m.contains_key(a) && m[a] == m2[raw];
            assert(m2[a] == m[a]);
        }
    }
    assert forall|i: int| 0 <= i < n0 implies s2[i] == cleared(old[i]) by {
        assert(s2[i] == prior(s, i));
    }
    // components of rows decoded so far
    assert forall|u: int, j: int| before(reg, doc, t, k + 1, u, j) implies comp(
        s2[m2[#[trigger] col_rows(reg, doc, u)[j].raw] as int],
        u,
    ) == Some(remap_value(reg[u].fields, col_rows(reg, doc, u)[j].value, m2)) by {
        let r = col_rows(reg, doc, u)[j];
        if u == t && j == k {
        } else {
            assert(before(reg, doc, t, k, u, j));
            assert(mentions_row(reg[u].fields, r, r.raw));
            assert(mentioned_upto(reg, doc, t, k, r.raw));
            assert(m.contains_key(r.raw));
            assert forall|e: u64| refs_of(reg[u].fields, r.value).contains(e) implies m.contains_key(
                e,
            ) by {
                assert(mentions_row(reg[u].fields, r, e));
                assert(mentioned_upto(reg, doc, t, k, e));
            }
            lemma_remap_stable(reg[u].fields, r.value, m, m2);
            let l = m[r.raw] as int;
            assert(m2[r.raw] == m[r.raw]);
            if l == live {
                assert(r.raw == row.raw);
                if u == t {
                    assert(col_rows(reg, doc, t)[j].raw != col_rows(reg, doc, t)[k].raw);
                }
                assert(comp(s2[live], u) == comp(prior(s, live), u));
            } else {
                assert(s2[l] == prior(s, l));
            }
        }
    }
    // liveness and the marker
    assert forall|raw: u64| #[trigger] m2.contains_key(raw) implies s2[m2[raw] as int].alive && (
    s2[m2[raw] as int].marked <==> owned_upto(reg, doc, t, k + 1, raw)) by {
        if raw == row.raw {
            assert(before(reg, doc, t, k + 1, t, k));
        } else {
            assert(m2[raw] != live);
            assert(s2[m2[raw] as int] == prior(s, m2[raw] as int));
            if owned_upto(reg, doc, t, k + 1, raw) {
                let (u, j) = choose|u: int, j: int|
                    before(reg, doc, t, k + 1, u, j) && #[trigger] col_rows(reg, doc, u)[j].raw
                        == raw;
                assert(before(reg, doc, t, k, u, j));
                assert(owned_upto(reg, doc, t, k, raw));
            }
            if owned_upto(reg, doc, t, k, raw) {
                let (u, j) = choose|u: int, j: int|
                    before(reg, doc, t, k, u, j) && #[trigger] col_rows(reg, doc, u)[j].raw == raw;
                assert(before(reg, doc, t, k + 1, u, j));
            }
            if !m.contains_key(raw) {
                if owned_upto(reg, doc, t, k, raw) {
                    let (u, j) = choose|u: int, j: int|
                        before(reg, doc, t, k, u, j) && #[trigger] col_rows(reg, doc, u)[j].raw
                            == raw;
                    assert(mentions_row(reg[u].fields, col_rows(reg, doc, u)[j], raw));
                    assert(mentioned_upto(reg, doc, t, k, raw));
                }
            }
        }
    }
    // no component without a row
    assert forall|raw: u64, u: int|
        m2.contains_key(raw) && (#[trigger] comp(s2[m2[raw] as int], u)) is Some implies exists|j: int|
        before(reg, doc, t, k + 1, u, j) && #[trigger] col_rows(reg, doc, u)[j].raw == raw by {
        if raw == row.raw && u == t {
            assert(before(reg, doc, t, k + 1, t, k));
        } else {
            let l = m2[raw] as int;
            if raw == row.raw {
                assert(comp(s2[live], u) == comp(prior(s, live), u));
            } else {
                assert(s2[l] == prior(s, l));
            }
            if m.contains_key(raw) {
                assert(l < s.len());
                let j = choose|j: int|
                    before(reg, doc, t, k, u, j) && #[trigger] col_rows(reg, doc, u)[j].raw == raw;
                assert(before(reg, doc, t, k + 1, u, j));
            } else {
                assert(prior(s, l) == empty_slot());
            }
        }
    }
}

} // verus!

verus! {

/// Finishing the rows of type `t` is starting those of type `t + 1`.
proof fn lemma_next_column(
    old: Seq<SlotView>,
    reg: Seq<TypeSpec>,
    doc: Seq<ColumnView>,
    t: int,
    m: Map<u64, u64>,
    s: Seq<SlotView>,
)
    requires
        0 <= t < reg.len(),
        progress(old, reg, doc, t, col_rows(reg, doc, t).len() as int, m, s),
    ensures
        progress(old, reg, doc, t + 1, 0, m, s),
{
    let k = col_rows(reg, doc, t).len() as int;
    assert forall|u: int, j: int| before(reg, doc, t, k, u, j) == before(reg, doc, t + 1, 0, u, j) by {}
    assert forall|raw: u64| mentioned_upto(reg, doc, t, k, raw) == mentioned_upto(reg, doc, t + 1, 0, raw) by {
        if mentioned_upto(reg, doc, t + 1, 0, raw) {
            let (u, j) = choose|u: int, j: int|
                before(reg, doc, t + 1, 0, u, j) && mentions_row(
                    reg[u].fields,
                    #[trigger] col_rows(reg, doc, u)[j],
                    raw,
                );
            assert(before(reg, doc, t, k, u, j));
        }
    }
    assert forall|raw: u64| owned_upto(reg, doc, t, k, raw) == owned_upto(reg, doc, t + 1, 0, raw) by {
        if owned_upto(reg, doc, t + 1, 0, raw) {
            let (u, j) = choose|u: int, j: int|
                before(reg, doc, t + 1, 0, u, j) && #[trigger] col_rows(reg, doc, u)[j].raw == raw;
            assert(before(reg, doc, t, k, u, j));
        }
    }
    assert forall|raw: u64, u: int|
        m.contains_key(raw) && (#[trigger] comp(s[m[raw] as int], u)) is Some implies exists|j: int|
        before(reg, doc, t + 1, 0, u, j) && #[trigger] col_rows(reg, doc, u)[j].raw == raw by {
        let j = choose|j: int| before(reg, doc, t, k, u, j) && #[trigger] col_rows(reg, doc, u)[j].raw == raw;
        assert(before(reg, doc, t + 1, 0, u, j));
    }
}

/// Every entity created while loading is live.
proof fn lemma_new_alive(
    old: Seq<SlotView>,
    reg: Seq<TypeSpec>,
    doc: Seq<ColumnView>,
    t: int,
    k: int,
    m: Map<u64, u64>,
    s: Seq<SlotView>,
)
    requires
        progress(old, reg, doc, t, k, m, s),
    ensures
        forall|i: int| old.len() <= i < s.len() ==> #[trigger] s[i].alive,
{
    assert forall|i: int| old.len() <= i < s.len() implies #[trigger] s[i].alive by {
        assert(crate::remap::hits(m, i));
        let a = choose|a: u64| #[trigger] m.contains_key(a) && m[a] == i;
    }
}

/// Decodes the column of registered type `t` into `store`, continuing a load
/// whose earlier types are done: each row's owner and each identity in its
/// entity fields is resolved through `table`, and the component, with its
/// references rewritten, is put on the owner's entity together with the
/// marker. A type without a column loads nothing. Fails, possibly after
/// changing the store, when the column holds a value that does not match the
/// schema or names an owner twice.
pub fn deserialize(
    store: &mut Store,
    table: &mut RemapTable,
    reg: &Registry,
    doc: &Document,
    t: usize,
) -> (r: Result<(), DecodeError>)
    requires
        t < reg@.len(),
        old(table).inv(old(store)@.len() as int),
        progress(old(table).origin(), reg@, doc@, t as int, 0, old(table)@, old(store)@),
    ensures
        final(table).origin() == old(table).origin(),
        r is Ok <==> column_ok(reg@[t as int].fields, col_rows(reg@, doc@, t as int)),
        r is Ok ==> final(table).inv(final(store)@.len() as int) && progress(
            final(table).origin(),
            reg@,
            doc@,
            t + 1,
            0,
            final(table)@,
            final(store)@,
        ),
        match r {
            Ok(()) => true,
            Err(DecodeError::Malformed { type_index, row }) => {
                &&& type_index == t
                &&& row < col_rows(reg@, doc@, t as int).len()
                &&& !conforms(reg@[t as int].fields, col_rows(reg@, doc@, t as int)[row as int].value)
            },
            Err(DecodeError::DuplicateOwner { type_index, row }) => {
                &&& type_index == t
                &&& row < col_rows(reg@, doc@, t as int).len()
                &&& exists|j: int|
                    0 <= j < row && #[trigger] col_rows(reg@, doc@, t as int)[j].raw == col_rows(
                        reg@,
                        doc@,
                        t as int,
                    )[row as int].raw
            },
        },
{
    let ghost s_old = table.origin();
    let ty = reg.type_at(t);
    let ghost fs = reg@[t as int].fields;
    let ghost col = col_rows(reg@, doc@, t as int);
    assert(ty.fields@.map_values(|f: FieldDesc| f@) == fs);
    match find_column(doc, &ty.name) {
        None => {
            assert(progress(s_old, reg@, doc@, t as int, col.len() as int, table@, store@));
            proof {
                lemma_next_column(s_old, reg@, doc@, t as int, table@, store@);
            }
            Ok(())
        },
        Some(ci) => {
            let rows = &doc.columns[ci].rows;
            assert(rows@.map_values(|r: Row| r@) == col);
            match check_column(t, &ty.fields, rows) {
                Err(e) => {
                    proof {
                        match e {
                            DecodeError::Malformed { type_index, row } => {
                                assert(col[row as int] == rows@[row as int]@);
                                assert(!conforms(fs, col[row as int].value));
                            },
                            DecodeError::DuplicateOwner { type_index, row } => {
                                let j = choose|j: int|
                                    0 <= j < row && #[trigger] rows@[j].raw == rows@[row as int].raw;
                                assert(col[j] == rows@[j]@);
                                assert(col[row as int] == rows@[row as int]@);
                                assert(col[j].raw == col[row as int].raw);
                            },
                        }
                        assert(!column_ok(fs, col));
                    }
                    return Err(e);
                },
                Ok(()) => {},
            }
            let mut k: usize = 0;
            while k < rows.len()
                invariant
                    t < reg@.len(),
                    s_old == table.origin(),
                    ty@ == reg@[t as int],
                    fs == reg@[t as int].fields,
                    col == col_rows(reg@, doc@, t as int),
                    rows@.map_values(|r: Row| r@) == col,
                    column_ok(fs, col),
                    k <= rows@.len(),
                    table.inv(store@.len() as int),
                    progress(s_old, reg@, doc@, t as int, k as int, table@, store@),
                decreases rows@.len() - k,
            {
                let ghost m0 = table@;
                let ghost s0 = store@;
                assert(col[k as int] == rows@[k as int]@);
                assert(conforms(fs, col[k as int].value));
                assert(ty.fields@.map_values(|f: FieldDesc| f@) == fs);
                proof {
                    lemma_new_alive(s_old, reg@, doc@, t as int, k as int, m0, s0);
                }
                decode_row(store, table, t, &ty.fields, &rows[k]);
                proof {
                    lemma_step(s_old, reg@, doc@, t as int, k as int, m0, s0, table@, store@);
                }
                k = k + 1;
            }
            proof {
                lemma_next_column(s_old, reg@, doc@, t as int, table@, store@);
            }
            Ok(())
        },
    }
}

/// Loads a document into `store`. The entities that carry the marker are
/// despawned first; then each registered type, in registry order, is decoded
/// as `deserialize` does, through one remap table for the whole call, which
/// is dropped at the end. Columns under names that are not registered are
/// ignored. Fails, possibly after changing the store, when a column it reads
/// holds a value that does not match its schema or names an owner twice.
pub fn load(store: &mut Store, reg: &Registry, doc: &Document) -> (r: Result<(), DecodeError>)
    ensures
        r is Ok <==> decodable(reg@, doc@),
        r is Ok ==> exists|m: Map<u64, u64>| loaded(old(store)@, reg@, doc@, m, final(store)@),
        match r {
            Ok(()) => true,
            Err(DecodeError::Malformed { type_index, row }) => {
                &&& type_index < reg@.len()
                &&& row < col_rows(reg@, doc@, type_index as int).len()
                &&& !conforms(
                    reg@[type_index as int].fields,
                    col_rows(reg@, doc@, type_index as int)[row as int].value,
                )
            },
            Err(DecodeError::DuplicateOwner { type_index, row }) => {
                &&& type_index < reg@.len()
                &&& row < col_rows(reg@, doc@, type_index as int).len()
                &&& exists|j: int|
                    0 <= j < row && #[trigger] col_rows(reg@, doc@, type_index as int)[j].raw
                        == col_rows(reg@, doc@, type_index as int)[row as int].raw
            },
        },
{
    let ghost s_old = store@;
    store.clear_marked();
    let mut table = RemapTable::new(store);
    let ghost s_c = store@;
    assert forall|i: int| 0 <= i < s_c.len() implies s_c[i] == cleared(s_c[i]) by {}
    assert(progress(s_c, reg@, doc@, 0, 0, table@, store@));
    let nt = reg.len();
    let mut t: usize = 0;
    while t < nt
        invariant
            nt == reg@.len(),
            t <= nt,
            table.origin() == s_c,
            forall|i: int| 0 <= i < s_old.len() ==> s_c[i] == cleared(s_old[i]),
            s_c.len() == s_old.len(),
            table.inv(store@.len() as int),
            progress(s_c, reg@, doc@, t as int, 0, table@, store@),
            forall|u: int| 0 <= u < t ==> column_ok(reg@[u].fields, #[trigger] col_rows(reg@, doc@, u)),
        decreases nt - t,
    {
        match deserialize(store, &mut table, reg, doc, t) {
            Err(e) => {
                assert(!column_ok(reg@[t as int].fields, col_rows(reg@, doc@, t as int)));
                return Err(e);
            },
            Ok(()) => {},
        }
        t = t + 1;
    }
    assert(loaded(s_old, reg@, doc@, table@, store@));
    Ok(())
}

} // verus!

verus! {

/// The positions, in order, of the first `n` columns of `doc` whose names no
/// registered type has.
pub open spec fn unregistered_upto(reg: Seq<TypeSpec>, doc: Seq<ColumnView>, n: int) -> Seq<usize>
    decreases n,
{
    if n <= 0 {
        Seq::empty()
    } else if has_name(reg, doc[n - 1].name) {
        unregistered_upto(reg, doc, n - 1)
    } else {
        unregistered_upto(reg, doc, n - 1).push((n - 1) as usize)
    }
}

/// The columns of `doc` that loading ignores because no registered type has
/// their name, in document order. Loading them is not an error: this is how
/// a caller learns what a schema change left behind.
pub fn unregistered_columns(reg: &Registry, doc: &Document) -> (r: Vec<usize>)
    ensures
        r@ == unregistered_upto(reg@, doc@, doc@.len() as int),
{
    let mut r: Vec<usize> = Vec::new();
    let n = doc.columns.len();
    let mut i: usize = 0;
    while i < n
        invariant
            n == doc@.len(),
            i <= n,
            r@ == unregistered_upto(reg@, doc@, i as int),
        decreases n - i,
    {
        assert(doc.columns@[i as int]@ == doc@[i as int]);
        if !reg.contains(&doc.columns[i].name) {
            r.push(i);
        }
        i = i + 1;
    }
    r
}

} // verus!

verus! {

/// `raw` is referred to by the document but owns none of the rows that
/// loading reads: loading gives it an entity with no components.
pub open spec fn dangling(reg: Seq<TypeSpec>, doc: Seq<ColumnView>, raw: u64) -> bool {
    mentioned(reg, doc, raw) && !owned(reg, doc, raw)
}

/// The owners of the rows that loading reads.
fn owners(reg: &Registry, doc: &Document) -> (r: HashSet<u64>)
    ensures
        forall|raw: u64| r@.contains(raw) <==> owned(reg@, doc@, raw),
{
    let mut r: HashSet<u64> = HashSet::new();
    let nt = reg.len();
    let mut t: usize = 0;
    while t < nt
        invariant
            nt == reg@.len(),
            t <= nt,
            forall|raw: u64| r@.contains(raw) <==> owned_upto(reg@, doc@, t as int, 0, raw),
        decreases nt - t,
    {
        let ghost col = col_rows(reg@, doc@, t as int);
        let ty = reg.type_at(t);
        match find_column(doc, &ty.name) {
            None => {},
            Some(ci) => {
                let rows = &doc.columns[ci].rows;
                assert(rows@.map_values(|r: Row| r@) == col);
                let mut k: usize = 0;
                while k < rows.len()
                    invariant
                        nt == reg@.len(),
                        t < nt,
                        col == col_rows(reg@, doc@, t as int),
                        rows@.map_values(|r: Row| r@) == col,
                        k <= rows@.len(),
                        forall|raw: u64|
                            r@.contains(raw) <==> owned_upto(reg@, doc@, t as int, k as int, raw),
                    decreases rows@.len() - k,
                {
                    assert(col[k as int] == rows@[k as int]@);
                    r.insert(rows[k].raw);
                    assert forall|raw: u64|
                        r@.contains(raw) <==> owned_upto(reg@, doc@, t as int, k + 1, raw) by {
                        if owned_upto(reg@, doc@, t as int, k + 1, raw) {
                            let (u, j) = choose|u: int, j: int|
                                before(reg@, doc@, t as int, k + 1, u, j) && #[trigger] col_rows(
                                    reg@,
                                    doc@,
                                    u,
                                )[j].raw == raw;
                            if !(u == t && j == k) {
                                assert(before(reg@, doc@, t as int, k as int, u, j));
                            }
                        }
                        if owned_upto(reg@, doc@, t as int, k as int, raw) {
                            let (u, j) = choose|u: int, j: int|
                                before(reg@, doc@, t as int, k as int, u, j) && #[trigger] col_rows(
                                    reg@,
                                    doc@,
                                    u,
                                )[j].raw == raw;
                            assert(before(reg@, doc@, t as int, k + 1, u, j));
                        }
                        if raw == rows@[k as int].raw {
                            assert(col_rows(reg@, doc@, t as int)[k as int].raw == raw);
                            assert(before(reg@, doc@, t as int, k + 1, t as int, k as int));
                        }
                    }
                    k = k + 1;
                }
            },
        }
        assert forall|raw: u64|
            owned_upto(reg@, doc@, t as int, col.len() as int, raw) == owned_upto(
                reg@,
                doc@,
                t + 1,
                0,
                raw,
            ) by {
            if owned_upto(reg@, doc@, t + 1, 0, raw) {
                let (u, j) = choose|u: int, j: int|
                    before(reg@, doc@, t + 1, 0, u, j) && #[trigger] col_rows(reg@, doc@, u)[j].raw
                        == raw;
                assert(before(reg@, doc@, t as int, col.len() as int, u, j));
            }
            if owned_upto(reg@, doc@, t as int, col.len() as int, raw) {
                let (u, j) = choose|u: int, j: int|
                    before(reg@, doc@, t as int, col.len() as int, u, j) && #[trigger] col_rows(
                        reg@,
                        doc@,
                        u,
                    )[j].raw == raw;
                assert(before(reg@, doc@, t + 1, 0, u, j));
            }
        }
        t = t + 1;
    }
    r
}

} // verus!

verus! {

/// An identity that the document refers to but that owns none of the rows
/// that loading reads, if there is one. Loading gives such an identity an
/// entity with no components; a caller that would rather refuse the
/// document, or drop the reference, can look for one first.
pub fn find_dangling(reg: &Registry, doc: &Document) -> (r: Option<u64>)
    ensures
        match r {
            Some(raw) => dangling(reg@, doc@, raw),
            None => forall|raw: u64| !dangling(reg@, doc@, raw),
        },
{
    let own = owners(reg, doc);
    let nt = reg.len();
    let mut t: usize = 0;
    while t < nt
        invariant
            nt == reg@.len(),
            t <= nt,
            forall|raw: u64| own@.contains(raw) <==> owned(reg@, doc@, raw),
            forall|raw: u64| mentioned_upto(reg@, doc@, t as int, 0, raw) ==> owned(reg@, doc@, raw),
        decreases nt - t,
    {
        let ghost col = col_rows(reg@, doc@, t as int);
        let ghost fs = reg@[t as int].fields;
        let ty = reg.type_at(t);
        assert(ty.fields@.map_values(|f: FieldDesc| f@) == fs);
        match find_column(doc, &ty.name) {
            None => {},
            Some(ci) => {
                let rows = &doc.columns[ci].rows;
                assert(rows@.map_values(|r: Row| r@) == col);
                let mut k: usize = 0;
                while k < rows.len()
                    invariant
                        nt == reg@.len(),
                        t < nt,
                        col == col_rows(reg@, doc@, t as int),
                        fs == reg@[t as int].fields,
                        ty@ == reg@[t as int],
                        rows@.map_values(|r: Row| r@) == col,
                        k <= rows@.len(),
                        forall|raw: u64| own@.contains(raw) <==> owned(reg@, doc@, raw),
                        forall|raw: u64|
                            mentioned_upto(reg@, doc@, t as int, k as int, raw) ==> owned(
                                reg@,
                                doc@,
                                raw,
                            ),
                    decreases rows@.len() - k,
                {
                    let row = &rows[k];
                    assert(col[k as int] == row@);
                    assert(before(reg@, doc@, reg@.len() as int, 0, t as int, k as int));
                    let nf = ty.fields.len();
                    let lim = if nf < row.value.len() {
                        nf
                    } else {
                        row.value.len()
                    };
                    let mut i: usize = 0;
                    while i < lim
                        invariant
                            nt == reg@.len(),
                            t < nt,
                            col == col_rows(reg@, doc@, t as int),
                            fs == reg@[t as int].fields,
                            ty@ == reg@[t as int],
                            nf == fs.len(),
                            k < col.len(),
                            col[k as int] == row@,
                            lim <= fs.len(),
                            lim <= row.value@.len(),
                            lim == fs.len() || lim == row.value@.len(),
                            i <= lim,
                            forall|raw: u64| own@.contains(raw) <==> owned(reg@, doc@, raw),
                            forall|j: int|
                                0 <= j < i && #[trigger] fs[j].entity && row.value@[j] is Nat
                                    ==> owned(reg@, doc@, row.value@[j]->Nat_0),
                        decreases lim - i,
                    {
                        assert(ty.fields@[i as int]@ == fs[i as int]);
                        if ty.fields[i].entity {
                            match &row.value[i] {
                                Datum::Nat(n) => {
                                    if !own.contains(n) {
                                        assert(fs[i as int].entity);
                                        assert(row.value@[i as int] == Datum::Nat(*n));
                                        assert(refs_of(fs, row.value@).contains(*n));
                                        assert(mentions_row(fs, col[k as int], *n));
                                        assert(before(reg@, doc@, reg@.len() as int, 0, t as int, k as int));
                                        assert(mentioned(reg@, doc@, *n));
                                        return Some(*n);
                                    }
                                },
                                _ => {},
                            }
                        }
                        i = i + 1;
                    }
                    assert forall|raw: u64|
                        mentioned_upto(reg@, doc@, t as int, k + 1, raw) implies owned(
                        reg@,
                        doc@,
                        raw,
                    ) by {
                        let (u, j) = choose|u: int, j: int|
                            before(reg@, doc@, t as int, k + 1, u, j) && mentions_row(
                                reg@[u].fields,
                                #[trigger] col_rows(reg@, doc@, u)[j],
                                raw,
                            );
                        if u == t && j == k {
                            if row.raw == raw {
                                assert(col_rows(reg@, doc@, t as int)[k as int].raw == raw);
                                assert(owned_upto(reg@, doc@, reg@.len() as int, 0, raw));
                            } else {
                                let x = choose|x: int|
                                    0 <= x < fs.len() && x < row.value@.len() && #[trigger] fs[x].entity
                                        && row.value@[x] == Datum::Nat(raw);
                                assert(x < lim);
                            }
                        } else {
                            assert(before(reg@, doc@, t as int, k as int, u, j));
                            assert(mentioned_upto(reg@, doc@, t as int, k as int, raw));
                        }
                    }
                    k = k + 1;
                }
            },
        }
        assert forall|raw: u64| mentioned_upto(reg@, doc@, t + 1, 0, raw) implies owned(
            reg@,
            doc@,
            raw,
        ) by {
            let (u, j) = choose|u: int, j: int|
                before(reg@, doc@, t + 1, 0, u, j) && mentions_row(
                    reg@[u].fields,
                    #[trigger] col_rows(reg@, doc@, u)[j],
                    raw,
                );
            assert(before(reg@, doc@, t as int, col.len() as int, u, j));
            assert(mentioned_upto(reg@, doc@, t as int, col.len() as int, raw));
        }
        t = t + 1;
    }
    None
}

} // verus!

