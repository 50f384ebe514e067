use ecs_snapshot::document::{Column, Document, Row};
use ecs_snapshot::load::{deserialize, find_dangling, load, unregistered_columns, DecodeError};
use ecs_snapshot::registry::Registry;
use ecs_snapshot::remap::RemapTable;
use ecs_snapshot::save::{save, select, EncodeError, SerializeComponents};
use ecs_snapshot::store::Store;
use ecs_snapshot::value::{Datum, FieldDesc};

const C1: usize = 0;
const C2: usize = 1;
const C3: usize = 2;
const UNUSED: usize = 3;

fn field(name: &str, entity: bool) -> FieldDesc {
    FieldDesc { name: name.to_string(), entity }
}

fn test_registry() -> Registry {
    let mut reg = Registry::new();
    assert!(reg.register("Component1".to_string(), vec![]));
    assert!(reg.register("Component2".to_string(), vec![field("target", true)]));
    assert!(reg.register(
        "Component3".to_string(),
        vec![field("target", true), field("test_enum", false)]
    ));
    assert!(reg.register("ComponentNotUsed".to_string(), vec![]));
    reg
}

fn a_test(text: &str) -> Datum {
    Datum::Tagged("ATest".to_string(), Box::new(Datum::Text(text.to_string())))
}

fn row(raw: u64, value: Vec<Datum>) -> Row {
    Row { raw, value }
}

fn column(name: &str, rows: Vec<Row>) -> Column {
    Column { name: name.to_string(), rows }
}

fn rows_of<'a>(doc: &'a Document, name: &str) -> &'a Vec<Row> {
    &doc.columns.iter().find(|c| c.name == name).unwrap().rows
}

/// Two entities: the first with only `Component1`, the second with all three
/// used components, both pointing at the first.
fn two_entity_store() -> (Store, u64, u64) {
    let mut store = Store::new();
    let e1 = store.spawn();
    store.insert(e1, C1, vec![]);
    let e2 = store.spawn();
    store.insert(e2, C1, vec![]);
    store.insert(e2, C2, vec![Datum::Nat(e1)]);
    store.insert(e2, C3, vec![Datum::Nat(e1), a_test("test")]);
    (store, e1, e2)
}

#[test]
fn test_serialization() {
    let reg = test_registry();
    let (mut store, entity1, entity2) = two_entity_store();

    let save_data = save(&store, &reg).unwrap();
    let expected = Document {
        columns: vec![
            column("Component1", vec![]),
            column("Component2", vec![]),
            column("Component3", vec![]),
            column("ComponentNotUsed", vec![]),
        ],
    };
    assert_eq!(save_data, expected);

    store.set_marked(entity1, true);
    store.set_marked(entity2, true);

    let save_data = save(&store, &reg).unwrap();
    let expected = Document {
        columns: vec![
            column("Component1", vec![row(0, vec![]), row(1, vec![])]),
            column("Component2", vec![row(1, vec![Datum::Nat(0)])]),
            column("Component3", vec![row(1, vec![Datum::Nat(0), a_test("test")])]),
            column("ComponentNotUsed", vec![]),
        ],
    };
    assert_eq!(save_data, expected);

    store.clear_all();
    let cleared_save_data = save(&store, &reg).unwrap();
    assert_eq!(
        cleared_save_data,
        Document {
            columns: vec![
                column("Component1", vec![]),
                column("Component2", vec![]),
                column("Component3", vec![]),
                column("ComponentNotUsed", vec![]),
            ],
        }
    );
    load(&mut store, &reg, &save_data.clone()).unwrap();

    let save_data2 = save(&store, &reg).unwrap();
    assert_eq!(save_data2, save_data);
}

#[test]
fn marked_entity_referring_to_unmarked_one() {
    let reg = test_registry();
    let (mut store, e0, e1) = two_entity_store();
    store.set_marked(e1, true);

    let doc = save(&store, &reg).unwrap();
    assert_eq!(*rows_of(&doc, "Component1"), vec![row(1, vec![])]);
    assert_eq!(*rows_of(&doc, "Component2"), vec![row(1, vec![Datum::Nat(0)])]);
    assert_eq!(
        *rows_of(&doc, "Component3"),
        vec![row(1, vec![Datum::Nat(0), a_test("test")])]
    );
    assert_eq!(*rows_of(&doc, "ComponentNotUsed"), vec![]);
    assert_eq!(e0, 0);

    let mut fresh = Store::new();
    load(&mut fresh, &reg, &doc).unwrap();
    assert_eq!(fresh.len(), 2);
    // raw 1 is met first, as the owner of the first row of Component1
    let for1: u64 = 0;
    let for0: u64 = 1;
    assert!(fresh.is_alive(for1) && fresh.is_alive(for0));
    assert_eq!(fresh.get(for1, C1), Some(&vec![]));
    assert_eq!(fresh.get(for1, C2), Some(&vec![Datum::Nat(for0)]));
    assert_eq!(fresh.get(for1, C3), Some(&vec![Datum::Nat(for0), a_test("test")]));
    assert_eq!(fresh.get(for1, UNUSED), None);
    assert!(fresh.is_marked(for1));
    for t in [C1, C2, C3, UNUSED] {
        assert_eq!(fresh.get(for0, t), None);
    }
    assert!(!fresh.is_marked(for0));
}

#[test]
fn unmarked_entities_never_saved() {
    let reg = test_registry();
    let mut store = Store::new();
    let a = store.spawn();
    let b = store.spawn();
    let c = store.spawn();
    for e in [a, b, c] {
        store.insert(e, C1, vec![]);
        store.insert(e, C2, vec![Datum::Nat(a)]);
    }
    store.set_marked(b, true);
    store.set_marked(c, true);
    store.despawn(c);
    let doc = save(&store, &reg).unwrap();
    for col in &doc.columns {
        for r in &col.rows {
            assert_eq!(r.raw, b);
        }
    }
    assert_eq!(*rows_of(&doc, "Component1"), vec![row(b, vec![])]);
    assert_eq!(*rows_of(&doc, "Component2"), vec![row(b, vec![Datum::Nat(a)])]);
}

#[test]
fn empty_selection_keeps_every_type() {
    let reg = test_registry();
    let (store, _, _) = two_entity_store();
    let doc = save(&store, &reg).unwrap();
    let names: Vec<&str> = doc.columns.iter().map(|c| c.name.as_str()).collect();
    assert_eq!(names, vec!["Component1", "Component2", "Component3", "ComponentNotUsed"]);
    assert!(doc.columns.iter().all(|c| c.rows.is_empty()));

    let empty = Store::new();
    let doc = save(&empty, &reg).unwrap();
    assert_eq!(unregistered_columns(&reg, &doc), Vec::<usize>::new());
    assert_eq!(doc.columns.len(), 4);
    assert!(doc.columns.iter().all(|c| c.rows.is_empty()));
}

#[test]
fn round_trip_rebuilds_references() {
    let reg = test_registry();
    let mut store = Store::new();
    let filler = store.spawn();
    let x = store.spawn();
    let y = store.spawn();
    // x and y point at each other
    store.insert(x, C2, vec![Datum::Nat(y)]);
    store.insert(y, C2, vec![Datum::Nat(x)]);
    store.insert(y, C3, vec![Datum::Nat(y), Datum::Int(-4)]);
    store.insert(filler, C1, vec![]);
    store.set_marked(x, true);
    store.set_marked(y, true);
    let doc = save(&store, &reg).unwrap();

    let mut fresh = Store::new();
    load(&mut fresh, &reg, &doc).unwrap();
    assert_eq!(fresh.len(), 2);
    // Component1 has no rows; Component2's first row is owned by x
    let lx: u64 = 0;
    let ly: u64 = 1;
    assert_eq!(fresh.get(lx, C2), Some(&vec![Datum::Nat(ly)]));
    assert_eq!(fresh.get(ly, C2), Some(&vec![Datum::Nat(lx)]));
    assert_eq!(fresh.get(ly, C3), Some(&vec![Datum::Nat(ly), Datum::Int(-4)]));
    assert_eq!(fresh.get(lx, C3), None);
    assert!(fresh.is_marked(lx) && fresh.is_marked(ly));

    // saving again gives the same document up to the renaming of identities
    let again = save(&fresh, &reg).unwrap();
    assert_eq!(*rows_of(&again, "Component2"), vec![
        row(lx, vec![Datum::Nat(ly)]),
        row(ly, vec![Datum::Nat(lx)]),
    ]);
    assert_eq!(*rows_of(&again, "Component3"), vec![row(ly, vec![Datum::Nat(ly), Datum::Int(-4)])]);
}

#[test]
fn shared_reference_whatever_the_type_order() {
    let mut forward = Registry::new();
    assert!(forward.register("A".to_string(), vec![field("to", true)]));
    assert!(forward.register("B".to_string(), vec![field("to", true), field("n", false)]));
    let mut backward = Registry::new();
    assert!(backward.register("B".to_string(), vec![field("to", true), field("n", false)]));
    assert!(backward.register("A".to_string(), vec![field("to", true)]));

    let doc = Document {
        columns: vec![
            column("A", vec![row(5, vec![Datum::Nat(9)])]),
            column("B", vec![row(7, vec![Datum::Nat(9), Datum::Bool(true)])]),
        ],
    };
    for (reg, ta, tb) in [(&forward, 0usize, 1usize), (&backward, 1usize, 0usize)] {
        let mut store = Store::new();
        load(&mut store, reg, &doc).unwrap();
        assert_eq!(store.len(), 3);
        let owner_a = (0..3u64).find(|&e| store.get(e, ta).is_some()).unwrap();
        let owner_b = (0..3u64).find(|&e| store.get(e, tb).is_some()).unwrap();
        assert_ne!(owner_a, owner_b);
        let ga = store.get(owner_a, ta).unwrap()[0].clone();
        let gb = store.get(owner_b, tb).unwrap()[0].clone();
        assert_eq!(ga, gb);
        match ga {
            Datum::Nat(g) => {
                assert!(g != owner_a && g != owner_b && g < 3);
                assert!(!store.is_marked(g));
            }
            _ => panic!("reference lost"),
        }
    }
}

#[test]
fn resolve_twice_gives_one_entity() {
    let mut store = Store::new();
    let old = store.spawn();
    let mut table = RemapTable::new(&store);
    assert_eq!(table.lookup(42), None);
    let first = table.resolve(42, &mut store);
    assert_eq!(first, 1);
    assert_ne!(first, old);
    let other = table.resolve(3, &mut store);
    assert_eq!(other, 2);
    let second = table.resolve(42, &mut store);
    assert_eq!(second, first);
    assert_eq!(store.len(), 3);
    assert_eq!(table.lookup(42), Some(first));
    assert_eq!(table.lookup(3), Some(other));
}

#[test]
fn save_fails_on_component_that_breaks_schema() {
    let reg = test_registry();
    let mut store = Store::new();
    let a = store.spawn();
    let b = store.spawn();
    store.insert(a, C2, vec![Datum::Nat(b)]);
    store.insert(b, C2, vec![Datum::Text("not an entity".to_string())]);
    store.set_marked(a, true);
    store.set_marked(b, true);
    assert_eq!(save(&store, &reg), Err(EncodeError { type_index: C2, entity: b }));
    assert_eq!(reg.serialize(&store, C2), Err(EncodeError { type_index: C2, entity: b }));
    assert!(reg.serialize(&store, C1).is_ok());

    // a component with the wrong number of fields
    let mut store = Store::new();
    let a = store.spawn();
    store.insert(a, C3, vec![Datum::Nat(a)]);
    store.set_marked(a, true);
    assert_eq!(save(&store, &reg), Err(EncodeError { type_index: C3, entity: a }));
}

#[test]
fn load_fails_on_malformed_value() {
    let reg = test_registry();
    let doc = Document {
        columns: vec![
            column("Component1", vec![row(0, vec![])]),
            column("Component2", vec![row(0, vec![Datum::Int(3)])]),
        ],
    };
    let mut store = Store::new();
    assert_eq!(
        load(&mut store, &reg, &doc),
        Err(DecodeError::Malformed { type_index: C2, row: 0 })
    );
    // the earlier type stays loaded
    assert_eq!(store.len(), 1);
    assert_eq!(store.get(0, C1), Some(&vec![]));

    let doc = Document {
        columns: vec![column("Component3", vec![row(0, vec![Datum::Nat(0)])])],
    };
    let mut store = Store::new();
    assert_eq!(
        load(&mut store, &reg, &doc),
        Err(DecodeError::Malformed { type_index: C3, row: 0 })
    );
}

#[test]
fn load_fails_on_repeated_owner() {
    let reg = test_registry();
    let doc = Document {
        columns: vec![column("Component1", vec![row(4, vec![]), row(2, vec![]), row(4, vec![])])],
    };
    let mut store = Store::new();
    assert_eq!(
        load(&mut store, &reg, &doc),
        Err(DecodeError::DuplicateOwner { type_index: C1, row: 2 })
    );
    assert_eq!(store.len(), 0);
}

#[test]
fn unknown_and_missing_columns() {
    let reg = test_registry();
    let doc = Document {
        columns: vec![
            column("Renamed", vec![row(0, vec![Datum::Null])]),
            column("Component2", vec![row(3, vec![Datum::Nat(3)])]),
        ],
    };
    assert_eq!(unregistered_columns(&reg, &doc), vec![0]);
    let mut store = Store::new();
    assert_eq!(load(&mut store, &reg, &doc), Ok(()));
    assert_eq!(store.len(), 1);
    assert_eq!(store.get(0, C2), Some(&vec![Datum::Nat(0)]));
    assert_eq!(store.get(0, C1), None);
    assert!(store.is_marked(0));
}

#[test]
fn load_replaces_persisted_entities_only() {
    let reg = test_registry();
    let mut store = Store::new();
    let kept = store.spawn();
    store.insert(kept, C1, vec![]);
    let stale = store.spawn();
    store.insert(stale, C1, vec![]);
    store.set_marked(stale, true);

    let doc = Document { columns: vec![column("Component2", vec![row(0, vec![Datum::Nat(0)])])] };
    load(&mut store, &reg, &doc).unwrap();
    assert!(store.is_alive(kept));
    assert_eq!(store.get(kept, C1), Some(&vec![]));
    assert!(!store.is_alive(stale));
    assert_eq!(store.get(stale, C1), None);
    assert_eq!(store.len(), 3);
    assert_eq!(store.get(2, C2), Some(&vec![Datum::Nat(2)]));
}

#[test]
fn deserialize_one_type_at_a_time() {
    let reg = test_registry();
    let doc = Document {
        columns: vec![
            column("Component2", vec![row(8, vec![Datum::Nat(6)])]),
            column("Component1", vec![row(6, vec![])]),
        ],
    };
    let mut store = Store::new();
    let mut table = RemapTable::new(&store);
    for t in 0..reg.len() {
        deserialize(&mut store, &mut table, &reg, &doc, t).unwrap();
    }
    // Component1 comes first in the registry, so raw 6 is met first
    assert_eq!(table.lookup(6), Some(0));
    assert_eq!(table.lookup(8), Some(1));
    assert_eq!(store.get(1, C2), Some(&vec![Datum::Nat(0)]));
    assert_eq!(store.get(0, C1), Some(&vec![]));
}

#[test]
fn registry_refuses_a_taken_name() {
    let mut reg = test_registry();
    assert!(!reg.register("Component2".to_string(), vec![]));
    assert_eq!(reg.len(), 4);
    assert!(reg.contains(&"Component3".to_string()));
    assert!(!reg.contains(&"Component9".to_string()));
    assert_eq!(reg.type_at(1).fields, vec![field("target", true)]);
}

#[test]
fn select_in_identity_order() {
    let mut store = Store::new();
    let a = store.spawn();
    let b = store.spawn();
    let c = store.spawn();
    store.insert(c, C1, vec![Datum::Null]);
    store.insert(a, C1, vec![Datum::Bool(false)]);
    store.insert(b, C2, vec![Datum::Nat(a)]);
    for e in [a, b, c] {
        store.set_marked(e, true);
    }
    assert_eq!(
        select(&store, C1),
        vec![row(a, vec![Datum::Bool(false)]), row(c, vec![Datum::Null])]
    );
    assert_eq!(select(&store, UNUSED), vec![]);
}

#[test]
fn dangling_reference_found_before_loading() {
    let reg = test_registry();
    let (mut store, e0, e1) = two_entity_store();
    store.set_marked(e1, true);
    let doc = save(&store, &reg).unwrap();
    assert_eq!(find_dangling(&reg, &doc), Some(e0));

    store.set_marked(e0, true);
    let doc = save(&store, &reg).unwrap();
    assert_eq!(find_dangling(&reg, &doc), None);

    // a reference held only by a column that loading ignores does not count
    let doc = Document {
        columns: vec![
            column("Unknown", vec![row(1, vec![Datum::Nat(5)])]),
            column("Component2", vec![row(2, vec![Datum::Nat(2)])]),
        ],
    };
    assert_eq!(find_dangling(&reg, &doc), None);
    let doc = Document {
        columns: vec![column("Component3", vec![row(2, vec![Datum::Nat(5), Datum::Nat(6)])])],
    };
    assert_eq!(find_dangling(&reg, &doc), Some(5));
}
