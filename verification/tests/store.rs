use wesnoth_engine::hex::Position;
use wesnoth_engine::store::{Address, Operation, Store, StoreSnapshot};
use wesnoth_engine::value::Value;
use wesnoth_engine::world::{Entity, World, WorldMap};

fn text(s: &str) -> Value {
    Value::String(s.to_string())
}

fn record(fields: Vec<(&str, Value)>) -> Value {
    Value::Record(fields.into_iter().map(|(k, v)| (k.to_string(), v)).collect())
}

fn world() -> World {
    World {
        map: WorldMap {
            width: 2,
            height: 1,
            cells: vec![
                record(vec![("terrain", text("grassland"))]),
                record(vec![("terrain", text("forest"))]),
            ],
        },
        entities: vec![(
            "unit".to_string(),
            Entity { id: "unit".to_string(), data: vec![("hp".to_string(), Value::Integer(10))] },
        )],
        data: vec![("turn".to_string(), Value::Integer(1))],
    }
}

fn store() -> Store {
    Store::new(world(), 42).unwrap()
}

#[test]
fn apply_is_atomic_and_rollback_preserves_rng() {
    let store = store();
    let mut transaction = store.begin(0).unwrap();
    let operations = [
        Operation::Insert { address: Address::data("temporary"), value: Value::Bool(true) },
        Operation::Remove { address: Address::data("missing") },
    ];
    assert!(transaction.apply(&operations).is_err());
    assert_eq!(transaction.get(&Address::data("temporary")).unwrap(), None);
    let random = transaction.random(1, 100).unwrap();
    transaction.rollback();

    let mut fresh = store.begin(0).unwrap();
    assert_eq!(fresh.random(1, 100).unwrap(), random);
    assert_eq!(store.revision(), 0);
}

#[test]
fn commit_tracks_stable_changes_noops_rng_and_conflicts() {
    let mut store = store();
    let mut first = store.begin(0).unwrap();
    let stale = store.begin(0).unwrap();
    first
        .apply(&[
            Operation::SetField {
                address: Address::entity("unit"),
                field: "hp".to_string(),
                value: Value::Integer(8),
            },
            Operation::Update { address: Address::data("turn"), value: Value::Integer(2) },
            Operation::SetField {
                address: Address::map(Position { x: 1, y: 1 }),
                field: "owner".to_string(),
                value: text("blue"),
            },
        ])
        .unwrap();
    assert_eq!(
        first.get(&Address::entity("unit")).unwrap().unwrap().get("hp"),
        Some(&Value::Integer(8))
    );
    let commit = store.commit(first).unwrap();
    assert_eq!(commit.revision, 1);
    assert_eq!(
        commit.changed_addresses,
        vec![
            Address::data("turn"),
            Address::entity("unit"),
            Address::map(Position { x: 1, y: 1 }),
        ]
    );
    assert!(store.commit(stale).is_err());

    let mut noop = store.begin(1).unwrap();
    noop.apply(&[Operation::Update { address: Address::data("turn"), value: Value::Integer(2) }])
        .unwrap();
    assert_eq!(store.commit(noop).unwrap().revision, 1);

    let mut random = store.begin(1).unwrap();
    random.random(1, 10).unwrap();
    assert_eq!(store.commit(random).unwrap().revision, 2);
}

#[test]
fn read_and_select_cover_named_collections_in_stable_order() {
    let store = store();
    let read = store.read();
    assert_eq!(read.revision(), 0);
    assert_eq!(
        read.get(&Address::map(Position { x: 2, y: 1 })).unwrap(),
        Some(record(vec![("terrain", text("forest"))]))
    );
    let hp = ["hp".to_string()];
    let records = read
        .select(vec![Address::data("turn"), Address::entity("unit")], Some(&hp[..]))
        .unwrap();
    assert_eq!(records[0].address, Address::data("turn"));
    assert_eq!(records[1].address, Address::entity("unit"));
    assert_eq!(records[1].value, record(vec![("hp", Value::Integer(10))]));
}

#[test]
fn rejects_invalid_world_dimensions() {
    let world = World {
        map: WorldMap { width: 1, height: 1, cells: Vec::new() },
        entities: Vec::new(),
        data: Vec::new(),
    };
    assert!(Store::new(world, 1).is_err());
}

fn error_of(operation: Operation) -> String {
    let store = store();
    let mut transaction = store.begin(0).unwrap();
    transaction.apply(&[operation]).unwrap_err()
}

#[test]
fn failed_operations_name_the_address_they_stopped_at() {
    assert_eq!(
        error_of(Operation::Insert { address: Address::data("turn"), value: Value::Null }),
        "store record already exists: Address { collection: \"data\", id: \"turn\" }"
    );
    assert_eq!(
        error_of(Operation::Remove { address: Address::data("missing") }),
        "store record not found: Address { collection: \"data\", id: \"missing\" }"
    );
    assert_eq!(
        error_of(Operation::Update { address: Address::entity("ghost"), value: Value::Null }),
        "store record not found: Address { collection: \"entities\", id: \"ghost\" }"
    );
    assert_eq!(
        error_of(Operation::SetField {
            address: Address::data("turn"),
            field: "value".to_string(),
            value: Value::Null,
        }),
        "store record is not a map: Address { collection: \"data\", id: \"turn\" }"
    );
    assert_eq!(
        error_of(Operation::SetField {
            address: Address::entity("ghost"),
            field: "hp".to_string(),
            value: Value::Null,
        }),
        "store record not found: Address { collection: \"entities\", id: \"ghost\" }"
    );
}

#[test]
fn quoted_ids_are_escaped_in_errors() {
    let store = store();
    let mut t = store.begin(0).unwrap();
    t.apply(&[Operation::Insert { address: Address::data("say \"hi\""), value: Value::Null }]).unwrap();
    assert_eq!(
        t.apply(&[Operation::Insert { address: Address::data("say \"hi\""), value: Value::Null }])
            .unwrap_err(),
        "store record already exists: Address { collection: \"data\", id: \"say \\\"hi\\\"\" }"
    );
}

#[test]
fn each_collection_refuses_what_it_cannot_hold() {
    assert_eq!(
        error_of(Operation::Insert { address: Address::entity("scout"), value: Value::Integer(1) }),
        "entity store values must be maps"
    );
    assert_eq!(
        error_of(Operation::Insert {
            address: Address::map(Position { x: 1, y: 1 }),
            value: record(vec![]),
        }),
        "store record already exists: Address { collection: \"map\", id: \"1,1\" }"
    );
    assert_eq!(
        error_of(Operation::Remove { address: Address::map(Position { x: 1, y: 1 }) }),
        "map cells cannot be removed"
    );
    assert_eq!(
        error_of(Operation::Remove { address: Address::new("units", "a").unwrap() }),
        "unknown store collection: units"
    );
    assert_eq!(
        error_of(Operation::SetField {
            address: Address::entity("unit"),
            field: String::new(),
            value: Value::Null,
        }),
        "store field must not be empty"
    );
    assert_eq!(
        error_of(Operation::Update { address: Address::new("map", "9").unwrap(), value: Value::Null }),
        "invalid map address: 9"
    );
    assert_eq!(
        error_of(Operation::Update {
            address: Address::map(Position { x: 3, y: 1 }),
            value: Value::Null,
        }),
        "position (3, 1) is outside the map"
    );
}

#[test]
fn writes_read_back_and_leave_other_records() {
    let store = store();
    let mut t = store.begin(0).unwrap();
    t.apply(&[
        Operation::Insert {
            address: Address::entity("scout"),
            value: record(vec![("hp", Value::Integer(5))]),
        },
        Operation::Update {
            address: Address::map(Position { x: 2, y: 1 }),
            value: record(vec![("terrain", text("hills"))]),
        },
        Operation::Remove { address: Address::data("turn") },
    ])
    .unwrap();
    assert_eq!(
        t.get(&Address::entity("scout")).unwrap(),
        Some(record(vec![("hp", Value::Integer(5))]))
    );
    assert_eq!(
        t.get(&Address::map(Position { x: 2, y: 1 })).unwrap(),
        Some(record(vec![("terrain", text("hills"))]))
    );
    assert_eq!(t.get(&Address::data("turn")).unwrap(), None);
    assert_eq!(
        t.get(&Address::entity("unit")).unwrap(),
        Some(record(vec![("hp", Value::Integer(10))]))
    );
    assert_eq!(
        t.get(&Address::map(Position { x: 1, y: 1 })).unwrap(),
        Some(record(vec![("terrain", text("grassland"))]))
    );
    assert_eq!(
        t.get(&Address::new("map", "01,1").unwrap()).unwrap(),
        Some(record(vec![("terrain", text("grassland"))]))
    );
}

#[test]
fn set_field_keeps_fields_in_name_order() {
    let store = store();
    let mut t = store.begin(0).unwrap();
    let cell = Address::map(Position { x: 1, y: 1 });
    t.apply(&[
        Operation::SetField { address: cell.clone(), field: "owner".to_string(), value: text("red") },
        Operation::SetField { address: cell.clone(), field: "fog".to_string(), value: Value::Bool(true) },
    ])
    .unwrap();
    assert_eq!(
        t.get(&cell).unwrap(),
        Some(record(vec![
            ("fog", Value::Bool(true)),
            ("owner", text("red")),
            ("terrain", text("grassland")),
        ]))
    );
}

#[test]
fn unchanged_values_are_not_changes() {
    let mut store = store();
    let mut t = store.begin(0).unwrap();
    t.apply(&[
        Operation::SetField { address: Address::entity("unit"), field: "hp".to_string(), value: Value::Integer(10) },
        Operation::Update {
            address: Address::map(Position { x: 2, y: 1 }),
            value: record(vec![("terrain", text("forest"))]),
        },
    ])
    .unwrap();
    let commit = store.commit(t).unwrap();
    assert_eq!(commit.revision, 0);
    assert!(commit.changed_addresses.is_empty());
}

#[test]
fn numbers_compare_by_their_bits() {
    let mut store = store();
    let mut t = store.begin(0).unwrap();
    let quarter = Value::Number(0.25f64.to_bits());
    t.apply(&[Operation::Insert { address: Address::data("ratio"), value: quarter }]).unwrap();
    assert_eq!(store.commit(t).unwrap().revision, 1);
    let mut same = store.begin(1).unwrap();
    same.apply(&[Operation::Update {
        address: Address::data("ratio"),
        value: Value::Number(0.25f64.to_bits()),
    }])
    .unwrap();
    assert_eq!(store.commit(same).unwrap().revision, 1);
}

#[test]
fn stale_transactions_and_bad_worlds_are_refused() {
    let mut store = store();
    assert_eq!(
        store.begin(5).err().unwrap(),
        "store revision conflict: expected 5, current 0"
    );
    let mut a = store.begin(0).unwrap();
    let b = store.begin(0).unwrap();
    a.apply(&[Operation::Remove { address: Address::entity("unit") }]).unwrap();
    store.commit(a).unwrap();
    assert_eq!(
        store.commit(b).err().unwrap(),
        "store revision conflict: expected 0, current 1"
    );
    assert_eq!(store.revision(), 1);

    let mut bad = world();
    bad.map.cells[0] = Value::Integer(3);
    assert_eq!(Store::new(bad, 1).err().unwrap(), "map cells must be records");
    let mut bad = world();
    bad.entities[0].1.id = "other".to_string();
    assert_eq!(Store::new(bad, 1).err().unwrap(), "world contains an invalid store id");
    let mut bad = world();
    bad.map.width = 0;
    assert_eq!(Store::new(bad, 1).err().unwrap(), "hex bounds must be positive");
    let mut bad = world();
    bad.map.height = 2;
    assert_eq!(Store::new(bad, 1).err().unwrap(), "map dimensions do not match its cells");
}

#[test]
fn snapshots_restore_world_random_and_revision() {
    let mut store = store();
    let mut t = store.begin(0).unwrap();
    t.random(1, 6).unwrap();
    t.apply(&[Operation::Update { address: Address::data("turn"), value: Value::Integer(3) }]).unwrap();
    store.commit(t).unwrap();
    let snapshot: StoreSnapshot = store.snapshot();
    assert_eq!(snapshot.revision, 1);
    let restored = Store::from_snapshot(snapshot).unwrap();
    assert_eq!(restored.revision(), 1);
    assert_eq!(restored.world(), store.world());
    let mut x = store.begin(1).unwrap();
    let mut y = restored.begin(1).unwrap();
    assert_eq!(x.random(1, 1000).unwrap(), y.random(1, 1000).unwrap());
}

#[test]
fn selection_takes_each_address_once_in_order() {
    let store = store();
    let read = store.read();
    let records = read
        .select(
            vec![
                Address::map(Position { x: 1, y: 1 }),
                Address::entity("unit"),
                Address::data("turn"),
                Address::entity("unit"),
                Address::entity("ghost"),
            ],
            None,
        )
        .unwrap();
    let addresses: Vec<Address> = records.iter().map(|r| r.address.clone()).collect();
    assert_eq!(
        addresses,
        vec![Address::data("turn"), Address::entity("unit"), Address::map(Position { x: 1, y: 1 })]
    );
    assert!(read.select(vec![Address::new("units", "x").unwrap()], None).is_err());
}

#[test]
fn value_accessors() {
    let v = record(vec![("a", Value::Integer(1)), ("b", text("x"))]);
    assert_eq!(v.get("b").and_then(Value::as_str), Some("x"));
    assert_eq!(v.get("a").and_then(Value::as_i64), Some(1));
    assert_eq!(v.get("c"), None);
    assert_eq!(v.as_map().map(Vec::len), Some(2));
    assert_eq!(Value::Null.as_map(), None);
    assert_eq!(text("y").as_i64(), None);
}
