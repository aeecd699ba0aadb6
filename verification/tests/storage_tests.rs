use bonsaidb::error::{AlreadyExists, Error, NotFound};
use bonsaidb::names::{CollectionName, SchemaName};
use bonsaidb::schema::Schematic;
use bonsaidb::storage::{parse_decimal_u64, Storage, StorageId};

fn empty_schematic() -> Schematic {
    Schematic::new()
}

#[test]
fn name_validation_tests() {
    assert!(matches!(Storage::validate_name("azAZ09.-"), Ok(())));
    assert!(matches!(
        Storage::validate_name("_internal-names-work"),
        Ok(())
    ));
    assert!(matches!(
        Storage::validate_name("-alphaunmericfirstrequired"),
        Err(Error::InvalidName { .. })
    ));
    assert!(matches!(
        Storage::validate_name("\u{2661}"),
        Err(Error::InvalidName { .. })
    ));
}

#[test]
fn name_validation_rejects_empty_and_oversized() {
    assert!(matches!(
        Storage::validate_name(""),
        Err(Error::InvalidName { .. })
    ));
    let long = "a".repeat(64);
    assert!(matches!(Storage::validate_name(&long), Ok(())));
    let too_long = "a".repeat(65);
    assert!(matches!(
        Storage::validate_name(&too_long),
        Err(Error::InvalidName { .. })
    ));
}

#[test]
fn server_id_parsing() {
    assert_eq!(parse_decimal_u64(b"0"), Some(0));
    assert_eq!(parse_decimal_u64(b"18446744073709551615"), Some(u64::MAX));
    assert_eq!(parse_decimal_u64(b"18446744073709551616"), None);
    assert_eq!(parse_decimal_u64(b""), None);
    assert_eq!(parse_decimal_u64(b"12x4"), None);
    assert_eq!(parse_decimal_u64(b"007"), Some(7));
}

#[test]
fn storage_id_sources() {
    // A configured override wins and is not persisted.
    let (id, fresh) = Storage::lookup_or_create_id(Some(99), None);
    assert_eq!(id.as_u64(), 99);
    assert!(!fresh);
    // The id file's ASCII decimal contents are authoritative.
    let bytes: Vec<u8> = b"12345".to_vec();
    let (id, fresh) = Storage::lookup_or_create_id(None, Some(&bytes));
    assert_eq!(id.as_u64(), 12345);
    assert!(!fresh);
    // With neither, a fresh id is drawn and must be persisted.
    let (_, fresh) = Storage::lookup_or_create_id(None, None);
    assert!(fresh);
    let copy = StorageId(7);
    assert_eq!(copy.as_u64(), 7);
}

#[test]
fn schema_registration_is_unique() {
    let (mut storage, _) = Storage::open("db", None, None, true, 4);
    let name = SchemaName::new("khonsulabs", "test");
    assert!(matches!(
        storage.register_schema_named(name, empty_schematic()),
        Ok(())
    ));
    let again = SchemaName::new("khonsulabs", "test");
    assert!(matches!(
        storage.register_schema_named(again, empty_schematic()),
        Err(Error::AlreadyExists(AlreadyExists::Schema { .. }))
    ));
}

#[test]
fn database_lifecycle() {
    let (mut storage, _) = Storage::open("db", Some(1), None, true, 4);
    let schema = SchemaName::new("khonsulabs", "test");
    storage
        .register_schema_named(schema.duplicate(), empty_schematic())
        .unwrap();

    // Creating a database under an unregistered schema fails.
    let other = SchemaName::new("khonsulabs", "unknown");
    assert!(matches!(
        storage.create_database_with_schema("things", other, false),
        Err(Error::SchemaNotRegistered { .. })
    ));

    // An invalid name fails.
    assert!(matches!(
        storage.create_database_with_schema("-bad", schema.duplicate(), false),
        Err(Error::InvalidName { .. })
    ));

    storage
        .create_database_with_schema("things", schema.duplicate(), false)
        .unwrap();

    // Database names are unique case-insensitively.
    assert!(matches!(
        storage.create_database_with_schema("THINGS", schema.duplicate(), false),
        Err(Error::AlreadyExists(AlreadyExists::Database { .. }))
    ));
    assert!(matches!(
        storage.create_database_with_schema("THINGS", schema.duplicate(), true),
        Ok(())
    ));

    // Opening under the right schema succeeds, a wrong one mismatches,
    // a missing name is not found.
    let record = storage.database("things", &schema).unwrap();
    assert_eq!(record.name, "things");
    let wrong = SchemaName::new("khonsulabs", "wrong");
    storage
        .register_schema_named(wrong.duplicate(), empty_schematic())
        .unwrap();
    assert!(matches!(
        storage.database("things", &wrong),
        Err(Error::SchemaMismatch { .. })
    ));
    assert!(matches!(
        storage.database("absent", &schema),
        Err(Error::NotFound(NotFound::Database { .. }))
    ));

    assert_eq!(storage.list_databases().len(), 1);
    let schemas = storage.list_available_schemas();
    assert_eq!(schemas.len(), 1);

    // Roots open once; reopening reuses the handle.
    assert!(storage.open_roots("things"));
    assert!(!storage.open_roots("things"));

    storage.delete_database("things").unwrap();
    assert!(matches!(
        storage.delete_database("things"),
        Err(Error::NotFound(NotFound::Database { .. }))
    ));
    assert_eq!(storage.list_databases().len(), 0);
}

#[test]
fn cached_databases_are_deduplicated() {
    let (mut storage, _) = Storage::open("db", Some(1), None, true, 4);
    let schema = SchemaName::new("khonsulabs", "test");
    let entries = vec![
        bonsaidb::connection::Database {
            name: "alpha".to_owned(),
            schema: schema.duplicate(),
        },
        bonsaidb::connection::Database {
            name: "ALPHA".to_owned(),
            schema: schema.duplicate(),
        },
        bonsaidb::connection::Database {
            name: "beta".to_owned(),
            schema: schema.duplicate(),
        },
    ];
    storage.cache_available_databases(entries);
    assert_eq!(storage.list_databases().len(), 2);
}

#[test]
fn admin_schema_declares_databases() {
    let schematic = <bonsaidb::admin::Admin as bonsaidb::schema::Schema>::schematic().unwrap();
    assert_eq!(schematic.collections.len(), 1);
    assert_eq!(schematic.views.len(), 1);
    let name = <bonsaidb::admin::Admin as bonsaidb::schema::Schema>::schema_name();
    assert_eq!(name.authority, "khonsulabs");
    assert_eq!(name.name, "bonsaidb-admin");
    let databases = CollectionName::new("khonsulabs", "database");
    assert_eq!(schematic.views_in_collection(&databases).len(), 1);
}

#[test]
fn opening_without_a_schema_type_uses_the_stored_record() {
    let (mut storage, _) = Storage::open("db", Some(1), None, true, 4);
    let schema = SchemaName::new("khonsulabs", "test");
    storage
        .register_schema_named(schema.duplicate(), empty_schematic())
        .unwrap();
    storage
        .create_database_with_schema("things", schema.duplicate(), false)
        .unwrap();
    let record = storage.database_without_schema("things").unwrap();
    assert_eq!(record.name, "things");
    assert_eq!(record.schema.name, "test");
    assert!(matches!(
        storage.database_without_schema("absent"),
        Err(Error::NotFound(NotFound::Database { .. }))
    ));
    // A record whose schema is no longer registered is surfaced as such.
    let orphan = SchemaName::new("khonsulabs", "gone");
    storage.cache_available_databases(vec![bonsaidb::connection::Database {
        name: "orphaned".to_owned(),
        schema: orphan,
    }]);
    assert!(matches!(
        storage.database_without_schema("orphaned"),
        Err(Error::SchemaNotRegistered { .. })
    ));
}

#[test]
fn the_admin_database_is_created_once() {
    let (mut storage, _) = Storage::open("db", Some(1), None, true, 4);
    storage.create_admin_database_if_needed().unwrap();
    assert_eq!(storage.list_databases().len(), 1);
    // A second run is a no-op rather than a failure.
    storage.create_admin_database_if_needed().unwrap();
    assert_eq!(storage.list_databases().len(), 1);
    let admin = storage.admin();
    assert_eq!(admin.name, "_admin");
    assert!(storage.database_without_schema("_admin").is_ok());
}

#[test]
fn open_roots_reuse_is_case_insensitive() {
    let (mut storage, _) = Storage::open("db", Some(1), None, true, 4);
    assert!(storage.open_roots("Things"));
    assert!(!storage.open_roots("things"));
    assert!(!storage.open_roots("THINGS"));
    // Deleting the database forgets the open root, so a re-created
    // database opens fresh trees.
    let schema = SchemaName::new("khonsulabs", "test");
    storage
        .register_schema_named(schema.duplicate(), empty_schematic())
        .unwrap();
    storage
        .create_database_with_schema("things", schema, false)
        .unwrap();
    storage.delete_database("things").unwrap();
    assert!(storage.open_roots("things"));
}
