use vstd::prelude::*;

use crate::value::Datum;

verus! {

/// One encoded component: the identity of its owner in the saved store, and
/// its value (empty for a component that carries no data).
#[derive(Clone, Debug, PartialEq, Eq)]
pub struct Row {
    pub raw: u64,
    pub value: Vec<Datum>,
}

/// The mathematical form of a row.
pub struct RowView {
    pub raw: u64,
    pub value: Seq<Datum>,
}

impl View for Row {
    type V = RowView;

    open spec fn view(&self) -> RowView {
        RowView { raw: self.raw, value: self.value@ }
    }
}

/// The encoded components of one type, under the type's name.
#[derive(Clone, Debug, PartialEq, Eq)]
pub struct Column {
    pub name: String,
    pub rows: Vec<Row>,
}

/// The mathematical form of a column.
pub struct ColumnView {
    pub name: Seq<char>,
    pub rows: Seq<RowView>,
}

impl View for Column {
    type V = ColumnView;

    open spec fn view(&self) -> ColumnView {
        ColumnView { name: self.name@, rows: self.rows@.map_values(|r: Row| r@) }
    }
}

/// A snapshot of the selected entities of a store, one column per type.
#[derive(Clone, Debug, PartialEq, Eq)]
pub struct Document {
    pub columns: Vec<Column>,
}

impl View for Document {
    type V = Seq<ColumnView>;

    open spec fn view(&self) -> Seq<ColumnView> {
        self.columns@.map_values(|c: Column| c@)
    }
}

/// The rows stored under `name`: those of the first column so called, or
/// none if no column is.
pub open spec fn column_for(doc: Seq<ColumnView>, name: Seq<char>) -> Seq<RowView>
    decreases doc.len(),
{
    if doc.len() == 0 {
        Seq::empty()
    } else if doc[0].name == name {
        doc[0].rows
    } else {
        column_for(doc.drop_first(), name)
    }
}

/// Finds the first column called `name`.
pub fn find_column(doc: &Document, name: &String) -> (r: Option<usize>)
    ensures
        match r {
            Some(i) => i < doc@.len() && doc@[i as int].name == name@ && column_for(doc@, name@)
                == doc@[i as int].rows,
            None => column_for(doc@, name@) == Seq::<RowView>::empty(),
        },
{
    let ghost d = doc@;
    let mut i: usize = 0;
    assert(d.subrange(0, d.len() as int) =~= d);
    while i < doc.columns.len()
        invariant
            d == doc@,
            i <= d.len(),
            column_for(d, name@) == column_for(d.subrange(i as int, d.len() as int), name@),
        decreases d.len() - i,
    {
        let ghost rest = d.subrange(i as int, d.len() as int);
        assert(rest[0] == d[i as int]);
        if doc.columns[i].name == *name {
            return Some(i);
        }
        assert(rest.drop_first() =~= d.subrange(i + 1, d.len() as int));
        i = i + 1;
    }
    None
}

} // verus!
