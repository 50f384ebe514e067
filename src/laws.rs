use vstd::prelude::*;

use crate::document::{column_for, ColumnView, RowView};
use crate::load::{col_rows, extends, loaded, owned, owned_upto};
use crate::registry::{names_distinct, TypeSpec};
use crate::remap::{hits, injective, resolved};
use crate::save::{encodable, save_spec, select_spec, select_upto};
use crate::store::{comp, selected, SlotView};
use crate::value::{remap_value, Datum};

verus! {

/// Every row that saving takes for type `t` belongs to a marked live entity,
/// and holds that entity's component of type `t`; the owners come in strictly
/// increasing order.
pub proof fn lemma_select_sound(s: Seq<SlotView>, t: int, n: int, k: int)
    requires
        0 <= n <= s.len(),
        s.len() <= u64::MAX,
        0 <= k < select_upto(s, t, n).len(),
    ensures
        ({
            let row = select_upto(s, t, n)[k];
            &&& row.raw < n
            &&& selected(s[row.raw as int])
            &&& comp(s[row.raw as int], t) == Some(row.value)
        }),
        forall|j: int| 0 <= j < k ==> select_upto(s, t, n)[j].raw < select_upto(s, t, n)[k].raw,
    decreases n,
{
    let prev = select_upto(s, t, n - 1);
    assert(n > 0);
    if k < prev.len() {
        lemma_select_sound(s, t, n - 1, k);
        assert forall|j: int| 0 <= j < k implies select_upto(s, t, n)[j].raw
            < select_upto(s, t, n)[k].raw by {
            lemma_select_sound(s, t, n - 1, j);
        }
    } else {
        assert forall|j: int| 0 <= j < k implies select_upto(s, t, n)[j].raw
            < select_upto(s, t, n)[k].raw by {
            lemma_select_sound(s, t, n - 1, j);
        }
    }
}

/// Every marked live entity among the first `n` that holds a component of
/// type `t` has a row for it.
pub proof fn lemma_select_complete(s: Seq<SlotView>, t: int, n: int, e: int)
    requires
        0 <= e < n <= s.len(),
        s.len() <= u64::MAX,
        selected(s[e]),
        comp(s[e], t) is Some,
    ensures
        exists|k: int|
            0 <= k < select_upto(s, t, n).len() && #[trigger] select_upto(s, t, n)[k] == (RowView {
                raw: e as u64,
                value: comp(s[e], t)->Some_0,
            }),
    decreases n,
{
    let prev = select_upto(s, t, n - 1);
    if e < n - 1 {
        lemma_select_complete(s, t, n - 1, e);
        let k = choose|k: int|
            0 <= k < prev.len() && #[trigger] prev[k] == (RowView {
                raw: e as u64,
                value: comp(s[e], t)->Some_0,
            });
        assert(select_upto(s, t, n)[k] == prev[k]);
    } else {
        assert(select_upto(s, t, n)[prev.len() as int] == (RowView {
            raw: e as u64,
            value: comp(s[e], t)->Some_0,
        }));
    }
}

/// The rows stored under a name are those of the first column so called.
proof fn lemma_column_for_first(doc: Seq<ColumnView>, i: int)
    requires
        0 <= i < doc.len(),
        forall|j: int| 0 <= j < i ==> (#[trigger] doc[j]).name != doc[i].name,
    ensures
        column_for(doc, doc[i].name) == doc[i].rows,
    decreases i,
{
    if i > 0 {
        let rest = doc.drop_first();
        assert forall|j: int| 0 <= j < i - 1 implies (#[trigger] rest[j]).name != rest[i - 1].name by {
            assert(rest[j] == doc[j + 1]);
        }
        lemma_column_for_first(rest, i - 1);
    }
}

/// With distinct names, loading reads for each registered type exactly the
/// rows that saving wrote for it.
proof fn lemma_saved_columns(s: Seq<SlotView>, reg: Seq<TypeSpec>, t: int)
    requires
        names_distinct(reg),
        0 <= t < reg.len(),
    ensures
        col_rows(reg, save_spec(s, reg), t) == select_spec(s, t),
{
    let doc = save_spec(s, reg);
    assert forall|j: int| 0 <= j < t implies (#[trigger] doc[j]).name != doc[t].name by {}
    lemma_column_for_first(doc, t);
}

/// An entity that is not live and marked has no row in a saved document,
/// whatever components it holds.
pub proof fn lemma_exclusion(s: Seq<SlotView>, reg: Seq<TypeSpec>, e: u64)
    requires
        s.len() <= u64::MAX,
        !(e < s.len() && selected(s[e as int])),
    ensures
        forall|t: int, k: int|
            0 <= t < reg.len() && 0 <= k < save_spec(s, reg)[t].rows.len() ==> #[trigger] save_spec(
                s,
                reg,
            )[t].rows[k].raw != e,
{
    assert forall|t: int, k: int|
        0 <= t < reg.len() && 0 <= k < save_spec(s, reg)[t].rows.len() implies #[trigger] save_spec(
        s,
        reg,
    )[t].rows[k].raw != e by {
        lemma_select_sound(s, t, s.len() as int, k);
    }
}

/// Saving a store with no marked live entity gives every registered type,
/// in order, with no rows; and it succeeds.
pub proof fn lemma_stable_schema(s: Seq<SlotView>, reg: Seq<TypeSpec>)
    requires
        s.len() <= u64::MAX,
        forall|i: int| 0 <= i < s.len() ==> !selected(#[trigger] s[i]),
    ensures
        encodable(s, reg),
        save_spec(s, reg).len() == reg.len(),
        forall|t: int|
            0 <= t < reg.len() ==> (#[trigger] save_spec(s, reg)[t]).name == reg[t].name
                && save_spec(s, reg)[t].rows.len() == 0,
{
    assert forall|t: int| 0 <= t < reg.len() implies (#[trigger] save_spec(s, reg)[t]).rows.len()
        == 0 by {
        if select_spec(s, t).len() > 0 {
            lemma_select_sound(s, t, s.len() as int, 0);
        }
    }
    assert forall|t: int, k: int|
        0 <= t < reg.len() && 0 <= k < select_spec(s, t).len() implies crate::value::conforms(
        reg[t].fields,
        #[trigger] select_spec(s, t)[k].value,
    ) by {
        lemma_select_sound(s, t, s.len() as int, k);
    }
}

/// The component that the entity standing for `e` should hold for type `t`
/// after a round trip: the source's own, with references rewritten through
/// `m`, when `e` was saved; none otherwise.
pub open spec fn carried(s: Seq<SlotView>, reg: Seq<TypeSpec>, m: Map<u64, u64>, e: u64, t: int) -> Option<
    Seq<Datum>,
> {
    if 0 <= t < reg.len() && e < s.len() && selected(s[e as int]) {
        match comp(s[e as int], t) {
            Some(v) => Some(remap_value(reg[t].fields, v, m)),
            None => None,
        }
    } else {
        None
    }
}

/// `e` owns a row of the saved document: a marked live entity holding a
/// component of a registered type.
pub open spec fn saved_owner(s: Seq<SlotView>, reg: Seq<TypeSpec>, e: u64) -> bool {
    &&& e < s.len()
    &&& selected(s[e as int])
    &&& exists|t: int| 0 <= t < reg.len() && (#[trigger] comp(s[e as int], t)) is Some
}

/// Saving a store and loading the document into an empty store rebuilds the
/// saved entities: `m` maps them one to one onto new live entities, the
/// marked entities of the new store are exactly their images, each holds the
/// same components as its source with every entity reference rewritten
/// through `m`, and entities that were only referred to come back empty and
/// unmarked.
pub proof fn lemma_round_trip(
    s: Seq<SlotView>,
    reg: Seq<TypeSpec>,
    fresh: Seq<SlotView>,
    m: Map<u64, u64>,
    s2: Seq<SlotView>,
)
    requires
        s.len() <= u64::MAX,
        names_distinct(reg),
        encodable(s, reg),
        fresh.len() == 0,
        loaded(fresh, reg, save_spec(s, reg), m, s2),
    ensures
        injective(m),
        forall|e: u64| saved_owner(s, reg, e) ==> #[trigger] m.contains_key(e),
        forall|e: u64| #[trigger] m.contains_key(e) ==> m[e] < s2.len(),
        forall|i: int| 0 <= i < s2.len() ==> #[trigger] hits(m, i),
        forall|e: u64| #[trigger] m.contains_key(e) ==> s2[m[e] as int].alive,
        forall|e: u64| #[trigger] m.contains_key(e) ==> (s2[m[e] as int].marked <==> saved_owner(s, reg, e)),
        forall|e: u64, t: int|
            m.contains_key(e) ==> #[trigger] comp(s2[m[e] as int], t) == carried(s, reg, m, e, t),
{
    let doc = save_spec(s, reg);
    assert forall|t: int| 0 <= t < reg.len() implies #[trigger] col_rows(reg, doc, t) == select_spec(s, t) by {
        lemma_saved_columns(s, reg, t);
    }
    // an owner of a row is a saved owner, and conversely
    assert forall|e: u64| owned(reg, doc, e) <==> saved_owner(s, reg, e) by {
        if owned(reg, doc, e) {
            let (u, j) = choose|u: int, j: int|
                crate::load::before(reg, doc, reg.len() as int, 0, u, j) && #[trigger] col_rows(reg, doc, u)[j].raw == e;
            lemma_select_sound(s, u, s.len() as int, j);
        }
        if saved_owner(s, reg, e) {
            let t = choose|t: int| 0 <= t < reg.len() && (#[trigger] comp(s[e as int], t)) is Some;
            lemma_select_complete(s, t, s.len() as int, e as int);
            let k = choose|k: int|
                0 <= k < select_spec(s, t).len() && #[trigger] select_spec(s, t)[k] == (RowView {
                    raw: e,
                    value: comp(s[e as int], t)->Some_0,
                });
            assert(crate::load::before(reg, doc, reg.len() as int, 0, t, k));
            assert(col_rows(reg, doc, t) == select_spec(s, t));
            assert(col_rows(reg, doc, t)[k].raw == e);
            assert(owned_upto(reg, doc, reg.len() as int, 0, e));
        }
    }
    assert forall|e: u64| saved_owner(s, reg, e) implies #[trigger] m.contains_key(e) by {
        let (u, j) = choose|u: int, j: int|
            crate::load::before(reg, doc, reg.len() as int, 0, u, j) && #[trigger] col_rows(reg, doc, u)[j].raw == e;
        assert(crate::load::mentions_row(reg[u].fields, col_rows(reg, doc, u)[j], e));
    }
    assert forall|e: u64, t: int| m.contains_key(e) implies #[trigger] comp(s2[m[e] as int], t) == carried(
        s,
        reg,
        m,
        e,
        t,
    ) by {
        if comp(s2[m[e] as int], t) is Some {
            let j = choose|j: int|
                crate::load::before(reg, doc, reg.len() as int, 0, t, j) && #[trigger] col_rows(reg, doc, t)[j].raw == e;
            lemma_select_sound(s, t, s.len() as int, j);
        } else if 0 <= t < reg.len() && e < s.len() && selected(s[e as int]) && comp(s[e as int], t) is Some {
            lemma_select_complete(s, t, s.len() as int, e as int);
            let k = choose|k: int|
                0 <= k < select_spec(s, t).len() && #[trigger] select_spec(s, t)[k] == (RowView {
                    raw: e,
                    value: comp(s[e as int], t)->Some_0,
                });
            assert(crate::load::before(reg, doc, reg.len() as int, 0, t, k));
        }
    }
}

/// Two components that referred to the same entity before saving refer to the
/// same entity after a round trip, whatever their types and owners.
pub proof fn lemma_shared_reference(
    s: Seq<SlotView>,
    reg: Seq<TypeSpec>,
    fresh: Seq<SlotView>,
    m: Map<u64, u64>,
    s2: Seq<SlotView>,
    ea: u64,
    ta: int,
    ia: int,
    eb: u64,
    tb: int,
    ib: int,
    g: u64,
)
    requires
        s.len() <= u64::MAX,
        names_distinct(reg),
        encodable(s, reg),
        fresh.len() == 0,
        loaded(fresh, reg, save_spec(s, reg), m, s2),
        0 <= ta < reg.len(),
        0 <= tb < reg.len(),
        ea < s.len(),
        eb < s.len(),
        selected(s[ea as int]),
        selected(s[eb as int]),
        comp(s[ea as int], ta) is Some,
        comp(s[eb as int], tb) is Some,
        0 <= ia < reg[ta].fields.len(),
        0 <= ib < reg[tb].fields.len(),
        reg[ta].fields[ia].entity,
        reg[tb].fields[ib].entity,
        comp(s[ea as int], ta)->Some_0.len() == reg[ta].fields.len(),
        comp(s[eb as int], tb)->Some_0.len() == reg[tb].fields.len(),
        comp(s[ea as int], ta)->Some_0[ia] == Datum::Nat(g),
        comp(s[eb as int], tb)->Some_0[ib] == Datum::Nat(g),
    ensures
        m.contains_key(g),
        comp(s2[m[ea] as int], ta)->Some_0[ia] == Datum::Nat(m[g]),
        comp(s2[m[eb] as int], tb)->Some_0[ib] == Datum::Nat(m[g]),
{
    lemma_round_trip(s, reg, fresh, m, s2);
    assert(saved_owner(s, reg, ea));
    assert(saved_owner(s, reg, eb));
    assert(comp(s2[m[ea] as int], ta) == carried(s, reg, m, ea, ta));
    assert(comp(s2[m[eb] as int], tb) == carried(s, reg, m, eb, tb));
    let doc = save_spec(s, reg);
    lemma_saved_columns(s, reg, ta);
    lemma_select_complete(s, ta, s.len() as int, ea as int);
    let k = choose|k: int|
        0 <= k < select_spec(s, ta).len() && #[trigger] select_spec(s, ta)[k] == (RowView {
            raw: ea,
            value: comp(s[ea as int], ta)->Some_0,
        });
    assert(crate::load::before(reg, doc, reg.len() as int, 0, ta, k));
    assert(crate::value::refs_of(reg[ta].fields, comp(s[ea as int], ta)->Some_0).contains(g));
    assert(crate::load::mentions_row(reg[ta].fields, col_rows(reg, doc, ta)[k], g));
}

/// Resolving an identity a second time, after any number of other
/// resolutions, gives the same live identity and changes nothing.
pub proof fn lemma_resolve_idempotent(
    m0: Map<u64, u64>,
    m1: Map<u64, u64>,
    m2: Map<u64, u64>,
    m3: Map<u64, u64>,
    raw: u64,
    first: u64,
    second: u64,
)
    requires
        resolved(m0, raw, first, m1),
        extends(m1, m2),
        resolved(m2, raw, second, m3),
    ensures
        first == second,
        m3 == m2,
{
    assert(m1.contains_key(raw));
}

} // verus!
