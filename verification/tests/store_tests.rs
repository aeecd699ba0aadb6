use bonsaidb::document::Header;
use bonsaidb::error::{AlreadyExists, Error, NotFound};
use bonsaidb::key::{Bound, Range, Sort};
use bonsaidb::names::CollectionName;
use bonsaidb::schema::Schematic;
use bonsaidb::store::Database;
use bonsaidb::transaction::{Changes, Operation, Transaction};

fn my_collection() -> CollectionName {
    CollectionName::new("myauthority", "mycollection")
}

fn test_schematic() -> Schematic {
    let mut schematic = Schematic::new();
    schematic.define_collection(my_collection()).unwrap();
    schematic
}

fn test_db() -> Database {
    Database::new("db", &test_schematic())
}

/// The byte form a record takes in these tests: rank, score, then name.
fn record(name: &str, rank: u32, score: f32) -> Vec<u8> {
    let mut contents = Vec::new();
    contents.extend_from_slice(&rank.to_le_bytes());
    contents.extend_from_slice(&score.to_le_bytes());
    contents.extend_from_slice(name.as_bytes());
    contents
}

#[test]
fn insert_without_id_assigns_one() {
    let mut db = test_db();
    let transaction = Transaction::insert(my_collection(), None, record("A", 1, 10.0));
    let results = db.apply_transaction(&transaction).unwrap();
    assert_eq!(results.len(), 1);
    let header = match &results[0] {
        bonsaidb::transaction::OperationResult::DocumentUpdated { header, .. } => header,
        _ => panic!("expected an insert result"),
    };
    assert_eq!(header.id, 1);
    assert_eq!(header.revision.count, 1);
    // The revision digest is a 32-byte hash of the contents, not the
    // contents themselves.
    assert_eq!(header.revision.sha256.len(), 32);
}

#[test]
fn insert_with_taken_id_conflicts() {
    let mut db = test_db();
    let first = Transaction::insert(my_collection(), Some(42), record("A", 1, 10.0));
    db.apply_transaction(&first).unwrap();
    let second = Transaction::insert(my_collection(), Some(42), record("B", 2, 20.0));
    let result = db.apply_transaction(&second);
    assert!(matches!(
        result,
        Err(Error::AlreadyExists(AlreadyExists::Document { id: 42, .. }))
    ));
    // Nothing from the failed transaction is observable.
    let doc = db.get(&my_collection(), 42).unwrap().unwrap();
    assert_eq!(doc.contents, record("A", 1, 10.0));
}

#[test]
fn update_with_stale_revision_conflicts() {
    let mut db = test_db();
    let insert = Transaction::insert(my_collection(), Some(42), record("A", 1, 10.0));
    db.apply_transaction(&insert).unwrap();
    let doc = db.get(&my_collection(), 42).unwrap().unwrap();

    // A mutated copy of the header must be rejected.
    let stale = Header {
        id: 42,
        revision: bonsaidb::document::Revision {
            count: 999,
            sha256: doc.header.revision.duplicate().sha256,
        },
    };
    let update = Transaction::update(my_collection(), stale, record("A", 5, 50.0));
    assert!(matches!(
        db.apply_transaction(&update),
        Err(Error::Conflict { id: 42, .. })
    ));
    // The original contents are unchanged.
    let unchanged = db.get(&my_collection(), 42).unwrap().unwrap();
    assert_eq!(unchanged.contents, record("A", 1, 10.0));

    // The true header updates fine and advances the revision.
    let update = Transaction::update(
        my_collection(),
        unchanged.header.duplicate(),
        record("A", 5, 50.0),
    );
    let results = db.apply_transaction(&update).unwrap();
    match &results[0] {
        bonsaidb::transaction::OperationResult::DocumentUpdated { header, .. } => {
            assert_eq!(header.revision.count, 2);
        }
        _ => panic!("expected an update result"),
    }
    let fresh = db.get(&my_collection(), 42).unwrap().unwrap();
    assert_eq!(fresh.contents, record("A", 5, 50.0));
}

#[test]
fn transaction_log_is_contiguous() {
    let mut db = test_db();
    for i in 0..100u32 {
        let t = Transaction::insert(my_collection(), None, record("doc", i, 1.0));
        db.apply_transaction(&t).unwrap();
    }
    let executed = db.list_executed_transactions(None, None);
    assert_eq!(executed.len(), 100);
    for (index, entry) in executed.iter().enumerate() {
        assert_eq!(entry.id, index as u64 + 1);
    }
    assert_eq!(db.last_transaction_id(), Some(100));

    // Windows honor the starting id and the limit.
    let window = db.list_executed_transactions(Some(51), Some(10));
    assert_eq!(window.len(), 10);
    assert_eq!(window[0].id, 51);
}

#[test]
fn transactions_are_all_or_nothing() {
    let mut db = test_db();
    let phantom_header = Header {
        id: 7,
        revision: bonsaidb::document::Revision {
            count: 1,
            sha256: vec![0; 32],
        },
    };
    let failing = Transaction::new()
        .with(Operation::insert(my_collection(), Some(1), record("A", 1, 1.0)))
        .with(Operation::update(my_collection(), phantom_header, record("B", 2, 2.0)));
    assert!(matches!(
        db.apply_transaction(&failing),
        Err(Error::NotFound(NotFound::Document { id: 7, .. }))
    ));
    // The first operation of the failed transaction left no trace.
    assert!(db.get(&my_collection(), 1).unwrap().is_none());
    assert_eq!(db.last_transaction_id(), None);
}

#[test]
fn deletes_leave_tombstones_in_the_log() {
    let mut db = test_db();
    let insert = Transaction::insert(my_collection(), Some(5), record("A", 1, 1.0));
    db.apply_transaction(&insert).unwrap();
    let doc = db.get(&my_collection(), 5).unwrap().unwrap();
    let delete = Transaction::delete(my_collection(), doc.header);
    db.apply_transaction(&delete).unwrap();

    assert!(db.get(&my_collection(), 5).unwrap().is_none());
    let executed = db.list_executed_transactions(Some(2), None);
    assert_eq!(executed.len(), 1);
    let changes = executed[0].changes.documents().unwrap();
    assert_eq!(changes.len(), 1);
    assert_eq!(changes[0].id, 5);
    assert!(changes[0].deleted);
    assert!(executed[0].changes.keys().is_none());
}

#[test]
fn ids_are_never_reused_after_delete() {
    let mut db = test_db();
    let insert = Transaction::insert(my_collection(), None, record("A", 1, 1.0));
    db.apply_transaction(&insert).unwrap();
    let doc = db.get(&my_collection(), 1).unwrap().unwrap();
    db.apply_transaction(&Transaction::delete(my_collection(), doc.header))
        .unwrap();
    let insert = Transaction::insert(my_collection(), None, record("B", 2, 2.0));
    let results = db.apply_transaction(&insert).unwrap();
    match &results[0] {
        bonsaidb::transaction::OperationResult::DocumentUpdated { header, .. } => {
            assert_eq!(header.id, 2);
        }
        _ => panic!("expected an insert result"),
    }
}

#[test]
fn get_multiple_skips_missing_ids() {
    let mut db = test_db();
    for _ in 0..3 {
        let t = Transaction::insert(my_collection(), None, record("x", 0, 0.0));
        db.apply_transaction(&t).unwrap();
    }
    let docs = db
        .get_multiple(&my_collection(), &vec![2, 42, 1])
        .unwrap();
    assert_eq!(docs.len(), 2);
    assert_eq!(docs[0].header.id, 2);
    assert_eq!(docs[1].header.id, 1);

    assert!(matches!(
        db.get(&CollectionName::new("other", "absent"), 1),
        Err(Error::NotFound(NotFound::Collection { .. }))
    ));
}

#[test]
fn list_honors_range_order_and_limit() {
    let mut db = test_db();
    for i in 0..5u32 {
        let t = Transaction::insert(my_collection(), None, record("x", i, 0.0));
        db.apply_transaction(&t).unwrap();
    }
    let all = db
        .list(
            &my_collection(),
            Range {
                start: Bound::Unbounded,
                end: Bound::Unbounded,
            },
            Sort::Ascending,
            None,
        )
        .unwrap();
    assert_eq!(all.len(), 5);
    assert_eq!(all[0].header.id, 1);

    let window = db
        .list(
            &my_collection(),
            Range {
                start: Bound::Included(2),
                end: Bound::Excluded(5),
            },
            Sort::Descending,
            Some(2),
        )
        .unwrap();
    assert_eq!(window.len(), 2);
    assert_eq!(window[0].header.id, 4);
    assert_eq!(window[1].header.id, 3);
}

#[test]
fn changes_accessors_distinguish_kinds() {
    let keys = Changes::Keys(vec![bonsaidb::transaction::ChangedKey {
        namespace: None,
        key: "k".to_owned(),
        deleted: false,
    }]);
    assert!(keys.documents().is_none());
    assert_eq!(keys.keys().unwrap().len(), 1);
}

#[test]
fn exhausted_id_space_is_an_internal_error() {
    let mut db = test_db();
    let at_max = Transaction::insert(my_collection(), Some(u64::MAX), record("z", 0, 0.0));
    db.apply_transaction(&at_max).unwrap();
    // With the highest id taken, nothing can be allocated above it.
    let push = Transaction::insert(my_collection(), None, record("y", 0, 0.0));
    assert!(matches!(db.apply_transaction(&push), Err(Error::Internal)));
}
