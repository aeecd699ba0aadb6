use bonsaidb::compactor::{compact_target, Compactor, Target};
use bonsaidb::error::Error;
use bonsaidb::names::{CollectionName, ViewName};
use bonsaidb::schema::Schematic;
use bonsaidb::store::Database;
use bonsaidb::tasks::{Task, TaskManager, ViewMapping};
use bonsaidb::transaction::Transaction;

fn my_collection() -> CollectionName {
    CollectionName::new("myauthority", "mycollection")
}

fn test_schematic() -> Schematic {
    let mut schematic = Schematic::new();
    schematic.define_collection(my_collection()).unwrap();
    schematic
        .define_view(ViewName::new(my_collection(), "scores-by-rank"), 1)
        .unwrap();
    schematic
}

fn test_db() -> Database {
    Database::new("db", &test_schematic())
}

fn mapper_task() -> Task {
    Task::ViewMap(ViewMapping {
        database: "db".to_owned(),
        view: ViewName::new(my_collection(), "scores-by-rank"),
    })
}

#[test]
fn identical_keys_coalesce_to_one_execution() {
    let mut tasks = TaskManager::new(4);
    // Five enqueues of the same key share a single pending entry.
    for _ in 0..5 {
        tasks.enqueue(mapper_task());
    }
    assert_eq!(tasks.jobs.len(), 1);
    assert_eq!(tasks.jobs[0].waiters, 5);

    // At most one execution starts for them.
    let started = tasks.next_pending();
    assert!(started.is_some());
    assert!(tasks.next_pending().is_none());
    assert_eq!(tasks.executions_started, 1);

    // Completion delivers the result to all five waiters.
    let deliveries = tasks.complete(&mapper_task()).unwrap();
    assert_eq!(deliveries, 5);
    assert_eq!(tasks.jobs.len(), 0);
    assert!(tasks.complete(&mapper_task()).is_none());
}

#[test]
fn distinct_keys_do_not_coalesce() {
    let mut tasks = TaskManager::new(4);
    tasks.enqueue(mapper_task());
    tasks.enqueue(Task::Compaction(bonsaidb::compactor::Compaction {
        database_name: "db".to_owned(),
        target: Target::KeyValue,
    }));
    assert_eq!(tasks.jobs.len(), 2);
}

#[test]
fn interrupted_compaction_leaves_the_original_intact() {
    let mut db = test_db();
    let mut tasks = TaskManager::new(4);
    let t = Transaction::insert(my_collection(), Some(7), vec![1, 2, 3]);
    db.apply_transaction(&t).unwrap();
    let wasted_before = db.collections[0].wasted;

    // The run is interrupted just before the file swap: an I/O error
    // surfaces and nothing changed.
    let result = compact_target(&mut db, &mut tasks, &Target::Database, true);
    assert!(matches!(result, Err(Error::Io)));
    let doc = db.get(&my_collection(), 7).unwrap().unwrap();
    assert_eq!(doc.contents, vec![1, 2, 3]);
    assert_eq!(db.collections[0].wasted, wasted_before);
    assert_eq!(db.last_transaction_id(), Some(1));

    // Reopening runs the integrity scan to completion.
    struct NoMappings;
    impl bonsaidb::schema::ViewSchema for NoMappings {
        fn version_spec(&self) -> u64 {
            unreachable!()
        }
        fn map_spec(
            &self,
            _id: u64,
            _contents: vstd::seq::Seq<u8>,
        ) -> vstd::seq::Seq<(vstd::seq::Seq<u8>, vstd::seq::Seq<u8>)> {
            unreachable!()
        }
        fn reduce_spec(
            &self,
            _mappings: vstd::seq::Seq<(vstd::seq::Seq<u8>, vstd::seq::Seq<u8>)>,
            _rereduce: bool,
        ) -> vstd::seq::Seq<u8> {
            unreachable!()
        }
        fn version(&self) -> u64 {
            1
        }
        fn map(&self, _id: u64, _contents: &Vec<u8>) -> Vec<(Vec<u8>, Vec<u8>)> {
            Vec::new()
        }
        fn reduce(&self, _mappings: &Vec<(Vec<u8>, Vec<u8>)>, _rereduce: bool) -> Vec<u8> {
            Vec::new()
        }
    }
    db.check_view_integrity(&NoMappings, 0);
    db.refresh_view(&NoMappings, 0);
    assert_eq!(db.views[0].invalidated.len(), 0);
}

#[test]
fn compaction_reclaims_waste_and_keeps_contents() {
    let mut db = test_db();
    let mut tasks = TaskManager::new(4);
    let t = Transaction::insert(my_collection(), Some(7), vec![1, 2, 3]);
    db.apply_transaction(&t).unwrap();
    let doc = db.get(&my_collection(), 7).unwrap().unwrap();
    let t = Transaction::update(my_collection(), doc.header, vec![4, 5, 6]);
    db.apply_transaction(&t).unwrap();
    assert!(db.collections[0].wasted > 0);

    let mut job = Compactor::collection(db, my_collection());
    job.execute(&mut tasks).unwrap();
    let db = job.database;
    assert_eq!(db.collections[0].wasted, 0);
    let doc = db.get(&my_collection(), 7).unwrap().unwrap();
    assert_eq!(doc.contents, vec![4, 5, 6]);

    // The whole-database and key/value forms run too.
    let mut job = Compactor::database(db);
    job.execute(&mut tasks).unwrap();
    let mut job = Compactor::keyvalue(job.database);
    job.execute(&mut tasks).unwrap();
    assert_eq!(job.database.kv_wasted, 0);
}

#[test]
fn compactor_keys_identify_their_target() {
    let db = test_db();
    let job = Compactor::target(db, Target::KeyValue);
    let key = job.key();
    match key {
        Task::Compaction(compaction) => {
            assert_eq!(compaction.database_name, "db");
            assert!(matches!(compaction.target, Target::KeyValue));
        }
        _ => panic!("expected a compaction key"),
    }
}
