use vstd::prelude::*;

verus! {

/// A structured value as it appears in a component's encoding.
#[derive(Debug, PartialEq, Eq)]
pub enum Datum {
    Null,
    Bool(bool),
    Int(i64),
    Nat(u64),
    Text(String),
    Tagged(String, Box<Datum>),
}

/// One field of a component type's schema: its name, and whether it holds
/// the identity of another entity.
#[derive(Clone, Debug, PartialEq, Eq)]
pub struct FieldDesc {
    pub name: String,
    pub entity: bool,
}

/// The mathematical form of a field description.
pub struct FieldSpec {
    pub name: Seq<char>,
    pub entity: bool,
}

impl View for FieldDesc {
    type V = FieldSpec;

    open spec fn view(&self) -> FieldSpec {
        FieldSpec { name: self.name@, entity: self.entity }
    }
}

/// A component value matches its schema: one datum per field, and a natural
/// number wherever the field is an entity reference.
pub open spec fn conforms(fields: Seq<FieldSpec>, vals: Seq<Datum>) -> bool {
    &&& vals.len() == fields.len()
    &&& forall|i: int| 0 <= i < fields.len() && #[trigger] fields[i].entity ==> vals[i] is Nat
}

/// The entity identities that a conforming value refers to, as a set.
pub open spec fn refs_of(fields: Seq<FieldSpec>, vals: Seq<Datum>) -> Set<u64> {
    Set::new(
        |e: u64|
            exists|i: int|
                0 <= i < fields.len() && i < vals.len() && #[trigger] fields[i].entity
                    && vals[i] == Datum::Nat(e),
    )
}

/// The datum at one position after its entity reference (if any) is rewritten
/// through `m`.
pub open spec fn remap_datum(f: FieldSpec, d: Datum, m: Map<u64, u64>) -> Datum {
    if f.entity && d is Nat {
        Datum::Nat(m[d->Nat_0])
    } else {
        d
    }
}

/// A component value with every entity reference rewritten through `m`.
pub open spec fn remap_value(fields: Seq<FieldSpec>, vals: Seq<Datum>, m: Map<u64, u64>) -> Seq<
    Datum,
> {
    Seq::new(vals.len(), |i: int| if i < fields.len() { remap_datum(fields[i], vals[i], m) } else { vals[i] })
}

/// Copies a datum, field for field.
pub fn copy_datum(d: &Datum) -> (r: Datum)
    ensures
        r == *d,
    decreases d,
{
    match d {
        Datum::Null => Datum::Null,
        Datum::Bool(b) => Datum::Bool(*b),
        Datum::Int(i) => Datum::Int(*i),
        Datum::Nat(n) => Datum::Nat(*n),
        Datum::Text(s) => Datum::Text(s.clone()),
        Datum::Tagged(tag, inner) => Datum::Tagged(tag.clone(), Box::new(copy_datum(inner))),
    }
}

impl Clone for Datum {
    fn clone(&self) -> (r: Datum)
        ensures
            r == *self,
    {
        copy_datum(self)
    }
}

/// Copies a component value.
pub fn copy_value(vals: &Vec<Datum>) -> (r: Vec<Datum>)
    ensures
        r@ == vals@,
{
    let mut r: Vec<Datum> = Vec::new();
    let mut i: usize = 0;
    while i < vals.len()
        invariant
            i <= vals@.len(),
            r@ == vals@.subrange(0, i as int),
        decreases vals@.len() - i,
    {
        r.push(copy_datum(&vals[i]));
        i = i + 1;
        assert(r@ =~= vals@.subrange(0, i as int));
    }
    assert(vals@.subrange(0, vals@.len() as int) =~= vals@);
    r
}

/// Tells whether a component value matches the schema `fields`.
pub fn check_value(fields: &Vec<FieldDesc>, vals: &Vec<Datum>) -> (r: bool)
    ensures
        r == conforms(fields@.map_values(|f: FieldDesc| f@), vals@),
{
    let ghost fs = fields@.map_values(|f: FieldDesc| f@);
    if fields.len() != vals.len() {
        return false;
    }
    let mut i: usize = 0;
    while i < fields.len()
        invariant
            fs == fields@.map_values(|f: FieldDesc| f@),
            i <= fields@.len(),
            fields@.len() == vals@.len(),
            forall|k: int| 0 <= k < i && #[trigger] fs[k].entity ==> vals@[k] is Nat,
        decreases fields@.len() - i,
    {
        if fields[i].entity {
            match &vals[i] {
                Datum::Nat(_) => {},
                _ => {
                    assert(fs[i as int].entity);
                    return false;
                },
            }
        }
        i = i + 1;
    }
    true
}

} // verus!
