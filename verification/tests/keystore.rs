use persistent_keystore_rs::{Database, DatabaseError, Entry, Field, FieldType, Table, TableBuilder};

fn create_db_table(name: String) -> (Database, TableBuilder) {
    let db = Database::default();
    let table = Table::new().name(name);
    (db, table)
}

#[test]
fn entry_field_some() {
    let entry = Entry::new()
        .set_primary_field(Field::String("This should Succeed too".to_string()))
        .unwrap()
        .add_field("FirstKey".to_string(), Field::I64(12312312))
        .unwrap()
        .add_field("OptionalKey".to_string(), Field::String("My second entry".to_string()))
        .unwrap()
        .build()
        .unwrap();

    if let None = entry.get_field("FirstKey".to_string()) {
        panic!("Expected value, received none")
    }
}

#[test]
fn entry_field_none() {
    let entry = Entry::new()
        .set_primary_field(Field::String("This should Succeed too".to_string()))
        .unwrap()
        .add_field("FirstKey".to_string(), Field::I64(12312312))
        .unwrap()
        .add_field("OptionalKey".to_string(), Field::String("My second entry".to_string()))
        .unwrap()
        .build()
        .unwrap();

    if let Some(s) = entry.get_field("MissingKey".to_string()) {
        panic!("Expected None, received {:?}", s)
    }
}

#[test]
fn entry_missing_fields() {
    let missing_fields_entry = Entry::new()
        .set_primary_field(Field::String("This entry should fail".to_string()))
        .unwrap()
        .build();

    if let Err(e) = missing_fields_entry {
        match e {
            DatabaseError::EntryMustContainFields => {}
            _ => panic!("Expected EntryMustContainFields but not {:?}", e),
        };
    } else {
        panic!("Expected error and did not receive one");
    };
}

#[test]
fn entry_mismatched_primary_field_type() {
    let (mut db, table_builder) = create_db_table("MismatchedPrimaryFieldType".to_string());

    let table = table_builder
        .primary_field(FieldType::String)
        .unwrap()
        .add_field("FirstKey".to_string(), FieldType::I64)
        .unwrap()
        .add_optional_field("OptionalKey".to_string(), FieldType::String)
        .unwrap()
        .build()
        .unwrap();

    db.create_table(table).unwrap();

    let mismatched_primary_field_type = Entry::new()
        .set_primary_field(Field::I64(123123))
        .unwrap()
        .add_field("FirstKey".to_string(), Field::String("testing".to_string()))
        .unwrap()
        .build()
        .unwrap();

    let result = db.insert(
        &"MismatchedPrimaryFieldType".to_string(),
        mismatched_primary_field_type,
        1,
    );

    if let Err(e) = result {
        match e {
            DatabaseError::MismatchedFieldType => {}
            _ => panic!("Expected MismatchedField type, not {:?}", e),
        };
    } else {
        panic!("Expected MismatchedFieldType error but received none");
    };
}

#[test]
fn entry_mismatched_secondary_field_type() {
    let (mut db, table_builder) = create_db_table("MismatchedSecondaryFieldType".to_string());

    let table = table_builder
        .primary_field(FieldType::String)
        .unwrap()
        .add_field("FirstKey".to_string(), FieldType::I64)
        .unwrap()
        .add_optional_field("OptionalKey".to_string(), FieldType::String)
        .unwrap()
        .build()
        .unwrap();

    db.create_table(table).unwrap();

    let mismatched_optional_field = Entry::new()
        .set_primary_field(Field::String("This should also fail".to_string()))
        .unwrap()
        .add_field("FirstKey".to_string(), Field::String("Should fail".to_string()))
        .unwrap()
        .build()
        .unwrap();

    let result = db.insert(
        &"MismatchedSecondaryFieldType".to_string(),
        mismatched_optional_field,
        1,
    );

    if let Err(e) = result {
        match e {
            DatabaseError::MismatchedFieldType => {}
            _ => panic!("Expected MismatchedField type, not {:?}", e),
        };
    } else {
        panic!("Expected MismatchedFieldType error but received none");
    };
}

#[test]
fn entry_extra_undefined_field() {
    let (mut db, table_builder) = create_db_table("EntryExtraUndefiniedField".to_string());

    let table = table_builder
        .primary_field(FieldType::String)
        .unwrap()
        .add_field("FirstKey".to_string(), FieldType::I64)
        .unwrap()
        .add_optional_field("OptionalKey".to_string(), FieldType::String)
        .unwrap()
        .build()
        .unwrap();

    db.create_table(table).unwrap();

    let extra_field = Entry::new()
        .set_primary_field(Field::String("This should also fail".to_string()))
        .unwrap()
        .add_field("FirstKey".to_string(), Field::I64(123123))
        .unwrap()
        .add_field("OptionalKey".to_string(), Field::String("My second field".to_string()))
        .unwrap()
        .add_field("ExtraField".to_string(), Field::String("ExtraField".to_string()))
        .unwrap()
        .build()
        .unwrap();

    let result = db.insert(&"EntryExtraUndefiniedField".to_string(), extra_field, 1);

    if let Err(e) = result {
        match e {
            DatabaseError::UnsupportedField(_) => {}
            _ => panic!("Expected UnsupportedField, got {:?}", e),
        };
    } else {
        panic!("Expected UnsupportedField, got none")
    }
}

#[test]
fn entry_table_does_not_exist() {
    let (mut db, table_builder) = create_db_table("EntryTableDoesNotExist".to_string());

    let table = table_builder
        .primary_field(FieldType::String)
        .unwrap()
        .add_field("FirstKey".to_string(), FieldType::I64)
        .unwrap()
        .add_optional_field("OptionalKey".to_string(), FieldType::String)
        .unwrap()
        .build()
        .unwrap();

    db.create_table(table).unwrap();

    let extra_field = Entry::new()
        .set_primary_field(Field::String("This should also fail".to_string()))
        .unwrap()
        .add_field("FirstKey".to_string(), Field::I64(123123))
        .unwrap()
        .add_field("OptionalKey".to_string(), Field::String("My second field".to_string()))
        .unwrap()
        .build()
        .unwrap();

    let result = db.insert(&"EntryTableDoesNotExist2".to_string(), extra_field, 1);

    if let Err(e) = result {
        match e {
            DatabaseError::TableDoesNotExist(_) => {}
            _ => panic!("Expected TableDoesNotExist, got {:?}", e),
        };
    } else {
        panic!("Expected TableDoesNotExist, got none")
    }
}

#[test]
fn entry_success_without_optional() {
    let (mut db, table_builder) = create_db_table("EntrySuccessWithoutOptional".to_string());

    let table = table_builder
        .primary_field(FieldType::String)
        .unwrap()
        .add_field("FirstKey".to_string(), FieldType::I64)
        .unwrap()
        .add_optional_field("OptionalKey".to_string(), FieldType::String)
        .unwrap()
        .build()
        .unwrap();

    db.create_table(table).unwrap();

    let extra_field = Entry::new()
        .set_primary_field(Field::String("This should Succeed".to_string()))
        .unwrap()
        .add_field("FirstKey".to_string(), Field::I64(123123))
        .unwrap()
        .build()
        .unwrap();

    let result = db.insert(&"EntrySuccessWithoutOptional".to_string(), extra_field, 1);

    if let Err(e) = result {
        panic!("No error expected, received {:?}", e)
    }
}

#[test]
fn entry_success_with_optional() {
    let (mut db, table_builder) = create_db_table("EntrySuccessWithOptional".to_string());

    let table = table_builder
        .primary_field(FieldType::String)
        .unwrap()
        .add_field("FirstKey".to_string(), FieldType::I64)
        .unwrap()
        .add_optional_field("OptionalKey".to_string(), FieldType::String)
        .unwrap()
        .build()
        .unwrap();

    db.create_table(table).unwrap();

    let extra_field = Entry::new()
        .set_primary_field(Field::String("This should Succeed".to_string()))
        .unwrap()
        .add_field("FirstKey".to_string(), Field::I64(123123))
        .unwrap()
        .add_field("OptionalKey".to_string(), Field::String("My second field".to_string()))
        .unwrap()
        .build()
        .unwrap();

    let result = db.insert(&"EntrySuccessWithOptional".to_string(), extra_field, 1);

    if let Err(e) = result {
        panic!("No error expected, received {:?}", e)
    }
}

#[test]
fn entry_update_success() {
    let (mut db, table_builder) = create_db_table("EntryUpdateSuccess".to_string());

    let table = table_builder
        .primary_field(FieldType::String)
        .unwrap()
        .add_field("FirstKey".to_string(), FieldType::I64)
        .unwrap()
        .add_optional_field("OptionalKey".to_string(), FieldType::String)
        .unwrap()
        .build()
        .unwrap();

    db.create_table(table).unwrap();

    let entry_first = Entry::new()
        .set_primary_field(Field::String("This should Succeed".to_string()))
        .unwrap()
        .add_field("FirstKey".to_string(), Field::I64(123123))
        .unwrap()
        .add_field("OptionalKey".to_string(), Field::String("My first entry".to_string()))
        .unwrap()
        .build()
        .unwrap();

    let result = db.insert(&"EntryUpdateSuccess".to_string(), entry_first, 1);

    if let Err(e) = result {
        panic!("No error expected, received {:?}", e)
    }

    let entry_second = Entry::new()
        .set_primary_field(Field::String("This should Succeed".to_string()))
        .unwrap()
        .add_field("FirstKey".to_string(), Field::I64(123123))
        .unwrap()
        .add_field("OptionalKey".to_string(), Field::String("My second entry".to_string()))
        .unwrap()
        .build()
        .unwrap();

    let result = db.update(&"EntryUpdateSuccess".to_string(), entry_second.clone(), 2);

    if let Err(e) = result {
        panic!("No error expected, received {:?}", e)
    }

    let curent_entry = db
        .get(
            &"EntryUpdateSuccess".to_string(),
            &Field::String("This should Succeed".to_string()),
        )
        .unwrap();
    assert!(curent_entry.primary_field == entry_second.primary_field);
    assert!(curent_entry.fields == entry_second.fields);
}

#[test]
fn entry_failure_second_insert() {
    let (mut db, table_builder) = create_db_table("SecondInsertFailure".to_string());

    let table = table_builder
        .primary_field(FieldType::String)
        .unwrap()
        .add_field("FirstKey".to_string(), FieldType::I64)
        .unwrap()
        .add_optional_field("OptionalKey".to_string(), FieldType::String)
        .unwrap()
        .build()
        .unwrap();

    db.create_table(table).unwrap();

    let entry_first = Entry::new()
        .set_primary_field(Field::String("This should Succeed".to_string()))
        .unwrap()
        .add_field("FirstKey".to_string(), Field::I64(123123))
        .unwrap()
        .add_field("OptionalKey".to_string(), Field::String("My first entry".to_string()))
        .unwrap()
        .build()
        .unwrap();

    let result = db.insert(&"SecondInsertFailure".to_string(), entry_first, 1);

    if let Err(e) = result {
        panic!("No error expected, received {:?}", e)
    }

    let entry_second = Entry::new()
        .set_primary_field(Field::String("This should Succeed".to_string()))
        .unwrap()
        .add_field("FirstKey".to_string(), Field::I64(123123))
        .unwrap()
        .add_field("OptionalKey".to_string(), Field::String("My second entry".to_string()))
        .unwrap()
        .build()
        .unwrap();

    let result = db.insert(&"SecondInsertFailure".to_string(), entry_second, 2);

    if let Err(e) = result {
        match e {
            DatabaseError::EntryExists => {}
            _ => panic!("Expected EntryExists, got {:?}", e),
        };
    } else {
        panic!("Expected EntryExists, got none")
    }
}

#[test]
fn database_open_close() {
    let (mut db, table_builder) = create_db_table("OpenSaveCloseOpen".to_string());

    let table = table_builder
        .primary_field(FieldType::String)
        .unwrap()
        .add_field("FirstKey".to_string(), FieldType::I64)
        .unwrap()
        .add_optional_field("OptionalKey".to_string(), FieldType::String)
        .unwrap()
        .build()
        .unwrap();

    db.create_table(table).unwrap();

    let entry_first = Entry::new()
        .set_primary_field(Field::String("This should Succeed".to_string()))
        .unwrap()
        .add_field("FirstKey".to_string(), Field::I64(123123))
        .unwrap()
        .add_field("OptionalKey".to_string(), Field::String("My first entry".to_string()))
        .unwrap()
        .build()
        .unwrap();

    let result = db.insert_or_update(&"OpenSaveCloseOpen".to_string(), entry_first.clone(), 1);

    if let Err(e) = result {
        panic!("No error expected, received {:?}", e)
    }

    let saved = persistent_keystore_rs::save_bytes(&db).unwrap();
    drop(db);

    let reopened = persistent_keystore_rs::load_bytes(&saved).unwrap();
    let curent_entry = reopened
        .get(
            &"OpenSaveCloseOpen".to_string(),
            &Field::String("This should Succeed".to_string()),
        )
        .unwrap();
    assert!(curent_entry.primary_field == entry_first.primary_field);
    assert!(curent_entry.fields == entry_first.fields);
}

#[test]
fn query_item() {
    let (mut db, table_builder) = create_db_table("QueryItems".to_string());

    let table = table_builder
        .primary_field(FieldType::String)
        .unwrap()
        .add_field("FirstKey".to_string(), FieldType::I64)
        .unwrap()
        .add_optional_field("OptionalKey".to_string(), FieldType::String)
        .unwrap()
        .build()
        .unwrap();

    db.create_table(table).unwrap();

    let entry_first = Entry::new()
        .set_primary_field(Field::String("This should Succeed".to_string()))
        .unwrap()
        .add_field("FirstKey".to_string(), Field::I64(123123))
        .unwrap()
        .add_field("OptionalKey".to_string(), Field::String("My first entry".to_string()))
        .unwrap()
        .build()
        .unwrap();

    let result = db.insert(&"QueryItems".to_string(), entry_first.clone(), 1);

    if let Err(e) = result {
        panic!("No error expected, received {:?}", e)
    }

    let entry_second = Entry::new()
        .set_primary_field(Field::String("This should Succeed too".to_string()))
        .unwrap()
        .add_field("FirstKey".to_string(), Field::I64(12312312))
        .unwrap()
        .add_field("OptionalKey".to_string(), Field::String("My second entry".to_string()))
        .unwrap()
        .build()
        .unwrap();

    let result = db.insert(&"QueryItems".to_string(), entry_second.clone(), 2);

    if let Err(e) = result {
        panic!("No error expected, received {:?}", e)
    }

    let first_query = db
        .query(
            &"QueryItems".to_string(),
            &vec![("OptionalKey".to_string(), Field::String("My first entry".to_string()))],
        )
        .unwrap();
    let second_query = db
        .query(
            &"QueryItems".to_string(),
            &vec![("FirstKey".to_string(), Field::I64(12312312))],
        )
        .unwrap();

    assert!(first_query[0].primary_field == entry_first.primary_field);
    assert!(first_query[0].fields == entry_first.fields);
    assert!(first_query.len() == 1);

    assert!(second_query[0].primary_field == entry_second.primary_field);
    assert!(second_query[0].fields == entry_second.fields);
    assert!(second_query.len() == 1);
}
