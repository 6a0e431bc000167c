use persistent_keystore_rs::{
    load_bytes, save_bytes, Database, DatabaseError, Entry, Field, FieldType, Table,
};

fn string_i64_table(name: &str) -> Table {
    Table::new()
        .name(name.to_string())
        .primary_field(FieldType::String)
        .unwrap()
        .add_field("FirstKey".to_string(), FieldType::I64)
        .unwrap()
        .build()
        .unwrap()
}

fn simple_entry(key: &str, value: i64) -> Entry {
    Entry::new()
        .set_primary_field(Field::String(key.to_string()))
        .unwrap()
        .add_field("FirstKey".to_string(), Field::I64(value))
        .unwrap()
        .build()
        .unwrap()
}

#[test]
fn insert_then_get_stamps_timestamp() {
    let mut db = Database::default();
    db.create_table(string_i64_table("Stamps")).unwrap();

    let entry = simple_entry("a", 41);
    assert!(entry.last_timestamp.is_none());
    db.insert(&"Stamps".to_string(), entry.clone(), 777).unwrap();

    let stored = db.get(&"Stamps".to_string(), &Field::String("a".to_string())).unwrap();
    assert_eq!(stored.last_timestamp, Some(777));
    assert!(stored.primary_field == entry.primary_field);
    assert!(stored.fields == entry.fields);
}

#[test]
fn update_is_upsert_and_keeps_latest() {
    let mut db = Database::default();
    db.create_table(string_i64_table("Upsert")).unwrap();

    // update on an absent key inserts
    db.update(&"Upsert".to_string(), simple_entry("a", 1), 1).unwrap();
    // a second update on the same key never reports an existing entry
    db.update(&"Upsert".to_string(), simple_entry("a", 2), 2).unwrap();
    db.insert_or_update(&"Upsert".to_string(), simple_entry("a", 3), 3).unwrap();

    let stored = db.get(&"Upsert".to_string(), &Field::String("a".to_string())).unwrap();
    assert_eq!(stored.get_field("FirstKey".to_string()), Some(Field::I64(3)));
    assert_eq!(stored.last_timestamp, Some(3));
    assert_eq!(db.scan(&"Upsert".to_string()).unwrap().len(), 1);
}

#[test]
fn missing_required_field_is_reported() {
    let mut db = Database::default();
    let table = Table::new()
        .name("Required".to_string())
        .primary_field(FieldType::String)
        .unwrap()
        .add_field("Needed".to_string(), FieldType::I64)
        .unwrap()
        .add_optional_field("Spare".to_string(), FieldType::String)
        .unwrap()
        .build()
        .unwrap();
    db.create_table(table).unwrap();

    let entry = Entry::new()
        .set_primary_field(Field::String("x".to_string()))
        .unwrap()
        .add_field("Spare".to_string(), Field::String("here".to_string()))
        .unwrap()
        .build()
        .unwrap();

    match db.insert(&"Required".to_string(), entry, 1) {
        Err(DatabaseError::MissingRequiredField(name)) => assert_eq!(name, "Needed"),
        other => panic!("Expected MissingRequiredField, got {:?}", other),
    }
}

#[test]
fn unsupported_field_fires_even_with_missing_required() {
    let mut db = Database::default();
    db.create_table(string_i64_table("Undeclared")).unwrap();

    // carries an undeclared name and also omits the required one: the
    // undeclared name is reported
    let entry = Entry::new()
        .set_primary_field(Field::String("x".to_string()))
        .unwrap()
        .add_field("Rogue".to_string(), Field::I64(5))
        .unwrap()
        .build()
        .unwrap();

    match db.insert(&"Undeclared".to_string(), entry, 1) {
        Err(DatabaseError::UnsupportedField(name)) => assert_eq!(name, "Rogue"),
        other => panic!("Expected UnsupportedField, got {:?}", other),
    }
}

#[test]
fn builder_error_cases() {
    match Table::new().name("NoPrimary".to_string()).build() {
        Err(DatabaseError::TableMissingPrimaryKey) => {}
        other => panic!("Expected TableMissingPrimaryKey, got {:?}", other),
    }
    match Table::new().primary_field(FieldType::String).unwrap().build() {
        Err(DatabaseError::TableNameNotSet) => {}
        other => panic!("Expected TableNameNotSet, got {:?}", other),
    }
    match Table::new()
        .name("NoFields".to_string())
        .primary_field(FieldType::String)
        .unwrap()
        .build()
    {
        Err(DatabaseError::TableMustContainFields) => {}
        other => panic!("Expected TableMustContainFields, got {:?}", other),
    }
    match Table::new().name("BadPrimary".to_string()).primary_field(FieldType::Absent) {
        Err(DatabaseError::UnsupportedFieldType) => {}
        other => panic!("Expected UnsupportedFieldType, got {:?}", other.map(|_| ())),
    }
    match Entry::new().set_primary_field(Field::NotImplemented) {
        Err(DatabaseError::InvalidPrimaryKey) => {}
        other => panic!("Expected InvalidPrimaryKey, got {:?}", other.map(|_| ())),
    }
    match Entry::new()
        .set_primary_field(Field::String("k".to_string()))
        .unwrap()
        .add_field("".to_string(), Field::I64(1))
    {
        Err(DatabaseError::InvalidPrimaryKey) => {}
        other => panic!("Expected InvalidPrimaryKey, got {:?}", other.map(|_| ())),
    }
}

#[test]
fn registry_error_cases() {
    let mut db = Database::default();
    db.create_table(string_i64_table("Dup")).unwrap();
    match db.create_table(string_i64_table("Dup")) {
        Err(DatabaseError::TableExists(name)) => assert_eq!(name, "Dup"),
        other => panic!("Expected TableExists, got {:?}", other),
    }
    match db.drop_table(&"Gone".to_string()) {
        Err(DatabaseError::TableDoesNotExist(name)) => assert_eq!(name, "Gone"),
        other => panic!("Expected TableDoesNotExist, got {:?}", other),
    }
    match db.get(&"Dup".to_string(), &Field::String("nobody".to_string())) {
        Err(DatabaseError::EntryDoesNotExists) => {}
        other => panic!("Expected EntryDoesNotExists, got {:?}", other.map(|_| ())),
    }
    match db.delete(&"Dup".to_string(), Field::String("nobody".to_string())) {
        Err(DatabaseError::EntryDoesNotExists) => {}
        other => panic!("Expected EntryDoesNotExists, got {:?}", other),
    }
    db.drop_table(&"Dup".to_string()).unwrap();
    assert_eq!(db.list_tables().len(), 0);
}

#[test]
fn query_criteria_are_a_conjunction() {
    let mut db = Database::default();
    let table = Table::new()
        .name("Conj".to_string())
        .primary_field(FieldType::String)
        .unwrap()
        .add_field("A".to_string(), FieldType::I64)
        .unwrap()
        .add_field("B".to_string(), FieldType::String)
        .unwrap()
        .build()
        .unwrap();
    db.create_table(table).unwrap();

    for (key, a, b) in [("k1", 1, "x"), ("k2", 1, "y"), ("k3", 2, "x")] {
        let e = Entry::new()
            .set_primary_field(Field::String(key.to_string()))
            .unwrap()
            .add_field("A".to_string(), Field::I64(a))
            .unwrap()
            .add_field("B".to_string(), Field::String(b.to_string()))
            .unwrap()
            .build()
            .unwrap();
        db.insert(&"Conj".to_string(), e, 1).unwrap();
    }

    let both = db
        .query(
            &"Conj".to_string(),
            &vec![
                ("A".to_string(), Field::I64(1)),
                ("B".to_string(), Field::String("x".to_string())),
            ],
        )
        .unwrap();
    assert_eq!(both.len(), 1);
    assert!(both[0].primary_field == Field::String("k1".to_string()));

    // an empty criteria list matches every entry
    let all = db.query(&"Conj".to_string(), &vec![]).unwrap();
    assert_eq!(all.len(), 3);

    // a criteria key the entry does not carry never matches
    let none = db
        .query(&"Conj".to_string(), &vec![("C".to_string(), Field::I64(1))])
        .unwrap();
    assert_eq!(none.len(), 0);

    // a value of another variant never matches, even against absent
    let cross = db
        .query(&"Conj".to_string(), &vec![("A".to_string(), Field::U64(1))])
        .unwrap();
    assert_eq!(cross.len(), 0);

    let removed = db
        .delete_many(&"Conj".to_string(), &vec![("A".to_string(), Field::I64(1))])
        .unwrap();
    assert_eq!(removed, 2);
    assert_eq!(db.scan(&"Conj".to_string()).unwrap().len(), 1);
}

#[test]
fn prune_respects_expiration_boundary() {
    let mut db = Database::default();
    let table = Table::new()
        .name("Ttl".to_string())
        .primary_field(FieldType::String)
        .unwrap()
        .add_field("FirstKey".to_string(), FieldType::I64)
        .unwrap()
        .add_expiration(10)
        .build()
        .unwrap();
    db.create_table(table).unwrap();
    // a table without an expiration window is never pruned
    db.create_table(string_i64_table("NoTtl")).unwrap();

    db.insert(&"Ttl".to_string(), simple_entry("a", 1), 100).unwrap();
    db.insert(&"NoTtl".to_string(), simple_entry("a", 1), 100).unwrap();

    // at any time up to last write + window the entry stays
    db.prune(105);
    assert_eq!(db.scan(&"Ttl".to_string()).unwrap().len(), 1);
    db.prune(110);
    assert_eq!(db.scan(&"Ttl".to_string()).unwrap().len(), 1);

    // one tick past the window it is gone
    db.prune(111);
    assert_eq!(db.scan(&"Ttl".to_string()).unwrap().len(), 0);
    assert_eq!(db.scan(&"NoTtl".to_string()).unwrap().len(), 1);
}

#[test]
fn prune_skips_entries_without_timestamp_in_future() {
    let mut db = Database::default();
    let table = Table::new()
        .name("Ttl2".to_string())
        .primary_field(FieldType::String)
        .unwrap()
        .add_field("FirstKey".to_string(), FieldType::I64)
        .unwrap()
        .add_expiration(10)
        .build()
        .unwrap();
    db.create_table(table).unwrap();
    // written "in the future" relative to the prune below: not stale
    db.insert(&"Ttl2".to_string(), simple_entry("later", 1), 1000).unwrap();
    db.prune(50);
    assert_eq!(db.scan(&"Ttl2".to_string()).unwrap().len(), 1);
}

#[test]
fn save_load_round_trip_is_exact() {
    let mut db = Database::default();
    db.set_sync_duration(12345);
    let table = Table::new()
        .name("Mixed".to_string())
        .primary_field(FieldType::String)
        .unwrap()
        .add_field("I".to_string(), FieldType::I64)
        .unwrap()
        .add_field("J".to_string(), FieldType::I32)
        .unwrap()
        .add_field("U".to_string(), FieldType::U64)
        .unwrap()
        .add_field("V".to_string(), FieldType::U32)
        .unwrap()
        .add_field("D".to_string(), FieldType::Date)
        .unwrap()
        .add_optional_field("S".to_string(), FieldType::String)
        .unwrap()
        .add_expiration(3600)
        .build()
        .unwrap();
    db.create_table(table).unwrap();
    db.create_table(string_i64_table("Second")).unwrap();

    let entry = Entry::new()
        .set_primary_field(Field::String("ключ \u{1F511}".to_string()))
        .unwrap()
        .add_field("I".to_string(), Field::I64(-42))
        .unwrap()
        .add_field("J".to_string(), Field::I32(-7))
        .unwrap()
        .add_field("U".to_string(), Field::U64(u64::MAX))
        .unwrap()
        .add_field("V".to_string(), Field::U32(u32::MAX))
        .unwrap()
        .add_field("D".to_string(), Field::Date(1700000000000))
        .unwrap()
        .add_field("S".to_string(), Field::String("значение".to_string()))
        .unwrap()
        .build()
        .unwrap();
    db.insert(&"Mixed".to_string(), entry.clone(), 9).unwrap();
    db.insert(&"Second".to_string(), simple_entry("plain", 5), 10).unwrap();

    let saved = save_bytes(&db).unwrap();
    let reopened = load_bytes(&saved).unwrap();

    assert_eq!(reopened.get_sync_interval(), Some(12345));
    let mut names = reopened.clone().list_tables();
    names.sort();
    assert_eq!(names, vec!["Mixed".to_string(), "Second".to_string()]);

    let stored = reopened
        .get(&"Mixed".to_string(), &Field::String("ключ \u{1F511}".to_string()))
        .unwrap();
    assert!(stored.primary_field == entry.primary_field);
    assert!(stored.fields == entry.fields);
    assert_eq!(stored.last_timestamp, Some(9));

    let other = reopened
        .get(&"Second".to_string(), &Field::String("plain".to_string()))
        .unwrap();
    assert_eq!(other.get_field("FirstKey".to_string()), Some(Field::I64(5)));
    assert_eq!(other.last_timestamp, Some(10));

    let expire = reopened
        .get_table(&"Mixed".to_string())
        .unwrap()
        .get_expiration();
    assert_eq!(expire, Some(3600));
}

#[test]
fn load_rejects_corrupt_images() {
    // not a size-prefixed block at all
    match load_bytes(&vec![1u8, 2u8, 3u8]) {
        Err(DatabaseError::DatabaseDecompressionError) => {}
        other => panic!("Expected DatabaseDecompressionError, got {:?}", other.map(|_| ())),
    }
    // a valid block whose contents are not a database image
    let junk = lz4_flex::compress_prepend_size(&[9u8, 9u8, 9u8, 9u8]);
    match load_bytes(&junk) {
        Err(DatabaseError::DatabaseSerializationError) => {}
        other => panic!("Expected DatabaseSerializationError, got {:?}", other.map(|_| ())),
    }
    // a truncated saved image fails to decompress or decode
    let mut db = Database::default();
    db.create_table(string_i64_table("T")).unwrap();
    let mut saved = save_bytes(&db).unwrap();
    saved.truncate(saved.len() - 1);
    assert!(load_bytes(&saved).is_err());
}

#[test]
fn end_to_end_string_table() {
    let mut db = Database::default();
    db.create_table(string_i64_table("EndToEnd")).unwrap();
    let name = "EndToEnd".to_string();

    db.insert(&name, simple_entry("a", 1), 1).unwrap();

    match db.insert(&name, simple_entry("a", 1), 2) {
        Err(DatabaseError::EntryExists) => {}
        other => panic!("Expected EntryExists, got {:?}", other),
    }

    db.update(&name, simple_entry("a", 2), 3).unwrap();
    let stored = db.get(&name, &Field::String("a".to_string())).unwrap();
    assert_eq!(stored.get_field("FirstKey".to_string()), Some(Field::I64(2)));

    db.delete(&name, Field::String("a".to_string())).unwrap();
    match db.get(&name, &Field::String("a".to_string())) {
        Err(DatabaseError::EntryDoesNotExists) => {}
        other => panic!("Expected EntryDoesNotExists, got {:?}", other.map(|_| ())),
    }
}

#[test]
fn field_types_and_tags() {
    assert!(Field::String("a".to_string()).get_type() == FieldType::String);
    assert!(Field::I64(1).get_type() == FieldType::I64);
    assert!(Field::I32(1).get_type() == FieldType::I32);
    assert!(Field::U64(1).get_type() == FieldType::U64);
    assert!(Field::U32(1).get_type() == FieldType::U32);
    assert!(Field::Date(1).get_type() == FieldType::Date);
    assert!(Field::NotImplemented.get_type() == FieldType::Absent);
    // equality is variant-aware: equal payloads of different variants differ
    assert!(Field::I64(1) != Field::U64(1).clone());
    assert!(Field::NotImplemented == Field::NotImplemented);
    assert!(Field::String("a".to_string()) == Field::String("a".to_string()));
}

#[test]
fn errors_describe_themselves() {
    assert_eq!(DatabaseError::EntryExists.describe(), "entry exists");
    assert_eq!(DatabaseError::EntryDoesNotExists.describe(), "entry does not exist");
    assert_eq!(
        DatabaseError::TableDoesNotExist("T".to_string()).describe(),
        "table does not exist"
    );
    assert_eq!(
        DatabaseError::MissingRequiredField("F".to_string()).describe(),
        "missing required field"
    );
}
