use vstd::prelude::*;

use crate::value::{FieldDesc, FieldSpec};

verus! {

/// A component type that takes part in saving and loading: the stable name
/// under which its values are stored, and its schema.
pub struct TypeDesc {
    pub name: String,
    pub fields: Vec<FieldDesc>,
}

/// The mathematical form of a component type description.
pub struct TypeSpec {
    pub name: Seq<char>,
    pub fields: Seq<FieldSpec>,
}

impl View for TypeDesc {
    type V = TypeSpec;

    open spec fn view(&self) -> TypeSpec {
        TypeSpec { name: self.name@, fields: self.fields@.map_values(|f: FieldDesc| f@) }
    }
}

/// The ordered list of component types that take part in saving and loading.
pub struct Registry {
    types: Vec<TypeDesc>,
}

/// No two registered types share a name.
pub open spec fn names_distinct(types: Seq<TypeSpec>) -> bool {
    forall|i: int, j: int|
        0 <= i < types.len() && 0 <= j < types.len() && i != j ==> types[i].name != types[j].name
}

/// Some registered type is called `name`.
pub open spec fn has_name(types: Seq<TypeSpec>, name: Seq<char>) -> bool {
    exists|i: int| 0 <= i < types.len() && #[trigger] types[i].name == name
}

impl View for Registry {
    type V = Seq<TypeSpec>;

    closed spec fn view(&self) -> Seq<TypeSpec> {
        self.types@.map_values(|t: TypeDesc| t@)
    }
}

impl Registry {
    /// A registry holds each name once.
    pub open spec fn wf(&self) -> bool {
        names_distinct(self@)
    }

    /// An empty registry.
    pub fn new() -> (r: Registry)
        ensures
            r@ == Seq::<TypeSpec>::empty(),
            r.wf(),
    {
        let r = Registry { types: Vec::new() };
        assert(r@ =~= Seq::<TypeSpec>::empty());
        r
    }

    /// Number of registered types.
    pub fn len(&self) -> (n: usize)
        ensures
            n == self@.len(),
    {
        self.types.len()
    }

    /// The type registered at position `i`.
    pub fn type_at(&self, i: usize) -> (t: &TypeDesc)
        requires
            i < self@.len(),
        ensures
            t@ == self@[i as int],
    {
        &self.types[i]
    }

    /// Tells whether a type called `name` is registered.
    pub fn contains(&self, name: &String) -> (r: bool)
        ensures
            r == has_name(self@, name@),
    {
        let mut i: usize = 0;
        while i < self.types.len()
            invariant
                i <= self@.len(),
                forall|k: int| 0 <= k < i ==> self@[k].name != name@,
            decreases self@.len() - i,
        {
            if self.types[i].name == *name {
                assert(self@[i as int].name == name@);
                return true;
            }
            i = i + 1;
        }
        false
    }

    /// Appends a type at the end of the registry, unless its name is taken.
    /// Returns whether it was added.
    pub fn register(&mut self, name: String, fields: Vec<FieldDesc>) -> (added: bool)
        requires
            old(self).wf(),
        ensures
            final(self).wf(),
            added == !has_name(old(self)@, name@),
            added ==> final(self)@ == old(self)@.push(
                TypeSpec { name: name@, fields: fields@.map_values(|f: FieldDesc| f@) },
            ),
            !added ==> final(self)@ == old(self)@,
    {
        if self.contains(&name) {
            return false;
        }
        let ghost before = self@;
        let t = TypeDesc { name, fields };
        self.types.push(t);
        assert(self@ =~= before.push(t@));
        true
    }
}

} // verus!
