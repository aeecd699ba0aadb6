use bonsaidb::connection::ViewQuery;
use bonsaidb::key::{AccessPolicy, Key, Sort};
use bonsaidb::names::{CollectionName, ViewName};
use bonsaidb::schema::{Schematic, ViewSchema};
use bonsaidb::store::Database;
use bonsaidb::tasks::TaskManager;
use bonsaidb::transaction::Transaction;

fn my_collection() -> CollectionName {
    CollectionName::new("myauthority", "mycollection")
}

fn scores_by_rank() -> ViewName {
    ViewName::new(my_collection(), "scores-by-rank")
}

fn test_schematic() -> Schematic {
    let mut schematic = Schematic::new();
    schematic.define_collection(my_collection()).unwrap();
    schematic.define_view(scores_by_rank(), 1).unwrap();
    schematic
}

fn test_db() -> Database {
    Database::new("db", &test_schematic())
}

fn record(name: &str, rank: u32, score: f32) -> Vec<u8> {
    let mut contents = Vec::new();
    contents.extend_from_slice(&rank.to_le_bytes());
    contents.extend_from_slice(&score.to_le_bytes());
    contents.extend_from_slice(name.as_bytes());
    contents
}

fn rank_of(contents: &[u8]) -> u32 {
    u32::from_le_bytes([contents[0], contents[1], contents[2], contents[3]])
}

fn score_of(contents: &[u8]) -> f32 {
    f32::from_le_bytes([contents[4], contents[5], contents[6], contents[7]])
}

/// Maps each record to its rank (as a key) and score (as a value); the
/// reduction averages the scores.
struct ScoresByRank;

impl ViewSchema for ScoresByRank {
    fn version_spec(&self) -> u64 {
        unreachable!()
    }

    fn map_spec(
        &self,
        _id: u64,
        _contents: vstd::seq::Seq<u8>,
    ) -> vstd::seq::Seq<(vstd::seq::Seq<u8>, vstd::seq::Seq<u8>)> {
        unreachable!()
    }

    fn reduce_spec(
        &self,
        _mappings: vstd::seq::Seq<(vstd::seq::Seq<u8>, vstd::seq::Seq<u8>)>,
        _rereduce: bool,
    ) -> vstd::seq::Seq<u8> {
        unreachable!()
    }

    fn version(&self) -> u64 {
        1
    }

    fn map(&self, _id: u64, contents: &Vec<u8>) -> Vec<(Vec<u8>, Vec<u8>)> {
        let rank = rank_of(contents) as u64;
        let score = score_of(contents);
        vec![(rank.as_big_endian_bytes(), score.to_le_bytes().to_vec())]
    }

    fn reduce(&self, mappings: &Vec<(Vec<u8>, Vec<u8>)>, _rereduce: bool) -> Vec<u8> {
        if mappings.is_empty() {
            return 0f32.to_le_bytes().to_vec();
        }
        let mut total = 0f32;
        for (_, value) in mappings {
            total += f32::from_le_bytes([value[0], value[1], value[2], value[3]]);
        }
        (total / mappings.len() as f32).to_le_bytes().to_vec()
    }
}

fn insert(db: &mut Database, name: &str, rank: u32, score: f32) {
    let t = Transaction::insert(my_collection(), None, record(name, rank, score));
    db.apply_transaction(&t).unwrap();
}

#[test]
fn view_freshness_under_update_before() {
    let mut db = test_db();
    let mut tasks = TaskManager::new(4);
    insert(&mut db, "a", 1, 10.0);
    insert(&mut db, "b", 1, 20.0);
    insert(&mut db, "c", 2, 30.0);

    let rows = ViewQuery::new(scores_by_rank())
        .with_key(1u64)
        .query(&mut db, &mut tasks, &ScoresByRank)
        .unwrap();
    assert_eq!(rows.len(), 2);
    // Two mappings with values 10 and 20, in insertion order.
    assert_eq!(f32::from_le_bytes([rows[0].value[0], rows[0].value[1], rows[0].value[2], rows[0].value[3]]), 10.0);
    assert_eq!(f32::from_le_bytes([rows[1].value[0], rows[1].value[1], rows[1].value[2], rows[1].value[3]]), 20.0);
    assert_eq!(rows[0].key, 1u64.as_big_endian_bytes());

    // Grouped reduction averages per rank.
    let view_index = bonsaidb::connection::find_view(&db, &scores_by_rank()).unwrap();
    let grouped = db.reduce_grouped_view(&ScoresByRank, view_index, None);
    assert_eq!(grouped.len(), 2);
    assert_eq!(grouped[0].0, 1u64.as_big_endian_bytes());
    assert_eq!(
        f32::from_le_bytes([grouped[0].1[0], grouped[0].1[1], grouped[0].1[2], grouped[0].1[3]]),
        15.0
    );
    assert_eq!(grouped[1].0, 2u64.as_big_endian_bytes());
    assert_eq!(
        f32::from_le_bytes([grouped[1].1[0], grouped[1].1[1], grouped[1].1[2], grouped[1].1[3]]),
        30.0
    );
}

#[test]
fn mapper_rerun_is_a_noop() {
    let mut db = test_db();
    insert(&mut db, "a", 1, 10.0);
    insert(&mut db, "b", 2, 20.0);
    let view_index = bonsaidb::connection::find_view(&db, &scores_by_rank()).unwrap();
    db.refresh_view(&ScoresByRank, view_index);
    let rows_before = db.query_view(view_index, None, Sort::Ascending, None);
    // With nothing stale, running the mapper again changes nothing.
    db.refresh_view(&ScoresByRank, view_index);
    let rows_after = db.query_view(view_index, None, Sort::Ascending, None);
    assert_eq!(rows_before.len(), rows_after.len());
    for (a, b) in rows_before.iter().zip(rows_after.iter()) {
        assert_eq!(a.source, b.source);
        assert_eq!(a.key, b.key);
        assert_eq!(a.value, b.value);
    }
}

#[test]
fn mapper_tracks_updates_and_deletes() {
    let mut db = test_db();
    let mut tasks = TaskManager::new(4);
    insert(&mut db, "a", 1, 10.0);
    insert(&mut db, "b", 2, 20.0);

    // Update document 1 to rank 2: its mapping moves.
    let doc = db.get(&my_collection(), 1).unwrap().unwrap();
    let t = Transaction::update(my_collection(), doc.header, record("a", 2, 40.0));
    db.apply_transaction(&t).unwrap();

    let rows = ViewQuery::new(scores_by_rank())
        .with_key(2u64)
        .query(&mut db, &mut tasks, &ScoresByRank)
        .unwrap();
    assert_eq!(rows.len(), 2);

    let rows = ViewQuery::new(scores_by_rank())
        .with_key(1u64)
        .query(&mut db, &mut tasks, &ScoresByRank)
        .unwrap();
    assert_eq!(rows.len(), 0);

    // Delete document 2: its mapping disappears.
    let doc = db.get(&my_collection(), 2).unwrap().unwrap();
    let t = Transaction::delete(my_collection(), doc.header);
    db.apply_transaction(&t).unwrap();
    let rows = ViewQuery::new(scores_by_rank())
        .with_key(2u64)
        .query(&mut db, &mut tasks, &ScoresByRank)
        .unwrap();
    assert_eq!(rows.len(), 1);
    assert_eq!(rows[0].source, 1);
}

#[test]
fn no_update_policy_reads_stale_contents() {
    let mut db = test_db();
    let mut tasks = TaskManager::new(4);
    insert(&mut db, "a", 1, 10.0);
    // Without running the mapper, the index is still empty.
    let rows = ViewQuery::new(scores_by_rank())
        .with_access_policy(AccessPolicy::NoUpdate)
        .query(&mut db, &mut tasks, &ScoresByRank)
        .unwrap();
    assert_eq!(rows.len(), 0);
    // An UpdateAfter query also returns the stale rows, but enqueues a
    // mapper job.
    let rows = ViewQuery::new(scores_by_rank())
        .with_access_policy(AccessPolicy::UpdateAfter)
        .query(&mut db, &mut tasks, &ScoresByRank)
        .unwrap();
    assert_eq!(rows.len(), 0);
    assert_eq!(tasks.jobs.len(), 1);
}

#[test]
fn integrity_scan_rebuilds_on_version_change() {
    let mut db = test_db();
    insert(&mut db, "a", 1, 10.0);
    let view_index = bonsaidb::connection::find_view(&db, &scores_by_rank()).unwrap();
    db.refresh_view(&ScoresByRank, view_index);
    assert_eq!(db.query_view(view_index, None, Sort::Ascending, None).len(), 1);

    // A matching version leaves the stored index untouched.
    db.check_view_integrity(&ScoresByRank, view_index);
    assert_eq!(db.query_view(view_index, None, Sort::Ascending, None).len(), 1);

    // A changed version discards the index and marks every live
    // document stale; the mapper rebuilds it.
    struct ScoresByRankVersionTwo;
    impl ViewSchema for ScoresByRankVersionTwo {
        fn version_spec(&self) -> u64 {
            unreachable!()
        }
        fn map_spec(
            &self,
            _id: u64,
            _contents: vstd::seq::Seq<u8>,
        ) -> vstd::seq::Seq<(vstd::seq::Seq<u8>, vstd::seq::Seq<u8>)> {
            unreachable!()
        }
        fn reduce_spec(
            &self,
            _mappings: vstd::seq::Seq<(vstd::seq::Seq<u8>, vstd::seq::Seq<u8>)>,
            _rereduce: bool,
        ) -> vstd::seq::Seq<u8> {
            unreachable!()
        }
        fn version(&self) -> u64 {
            2
        }
        fn map(&self, id: u64, contents: &Vec<u8>) -> Vec<(Vec<u8>, Vec<u8>)> {
            ScoresByRank.map(id, contents)
        }
        fn reduce(&self, mappings: &Vec<(Vec<u8>, Vec<u8>)>, rereduce: bool) -> Vec<u8> {
            ScoresByRank.reduce(mappings, rereduce)
        }
    }
    db.check_view_integrity(&ScoresByRankVersionTwo, view_index);
    assert_eq!(db.query_view(view_index, None, Sort::Ascending, None).len(), 0);
    assert_eq!(db.views[view_index].invalidated.len(), 1);
    db.refresh_view(&ScoresByRankVersionTwo, view_index);
    assert_eq!(db.query_view(view_index, None, Sort::Ascending, None).len(), 1);
}

#[test]
fn ungrouped_reduce_averages_everything() {
    let mut db = test_db();
    insert(&mut db, "a", 1, 10.0);
    insert(&mut db, "b", 1, 20.0);
    insert(&mut db, "c", 2, 30.0);
    let view_index = bonsaidb::connection::find_view(&db, &scores_by_rank()).unwrap();
    db.refresh_view(&ScoresByRank, view_index);
    let value = db.reduce_view(&ScoresByRank, view_index, None);
    assert_eq!(f32::from_le_bytes([value[0], value[1], value[2], value[3]]), 20.0);
}

#[test]
fn querying_an_unknown_view_is_not_found() {
    let mut db = test_db();
    let mut tasks = bonsaidb::tasks::TaskManager::new(1);
    let absent = ViewName::new(my_collection(), "absent");
    let result = ViewQuery::new(absent).query(&mut db, &mut tasks, &ScoresByRank);
    assert!(matches!(
        result,
        Err(bonsaidb::error::Error::NotFound(bonsaidb::error::NotFound::View { .. }))
    ));
}

#[test]
fn query_builders_filter_order_and_limit() {
    let mut db = test_db();
    let mut tasks = bonsaidb::tasks::TaskManager::new(1);
    insert(&mut db, "a", 1, 10.0);
    insert(&mut db, "b", 2, 20.0);
    insert(&mut db, "c", 3, 30.0);

    let keys: Vec<u64> = vec![1, 3];
    let rows = ViewQuery::new(scores_by_rank())
        .with_keys(&keys)
        .query(&mut db, &mut tasks, &ScoresByRank)
        .unwrap();
    assert_eq!(rows.len(), 2);
    assert_eq!(rows[0].key, 1u64.as_big_endian_bytes());
    assert_eq!(rows[1].key, 3u64.as_big_endian_bytes());

    let rows = ViewQuery::new(scores_by_rank())
        .with_key_range(bonsaidb::key::Range {
            start: bonsaidb::key::Bound::Included(1u64),
            end: bonsaidb::key::Bound::Excluded(3u64),
        })
        .descending()
        .limit(1)
        .query(&mut db, &mut tasks, &ScoresByRank)
        .unwrap();
    assert_eq!(rows.len(), 1);
    assert_eq!(rows[0].key, 2u64.as_big_endian_bytes());

    let rows = ViewQuery::new(scores_by_rank())
        .ascending()
        .limit(2)
        .query(&mut db, &mut tasks, &ScoresByRank)
        .unwrap();
    assert_eq!(rows.len(), 2);
    assert_eq!(rows[0].key, 1u64.as_big_endian_bytes());
}

#[test]
fn query_with_docs_pairs_rows_with_their_documents() {
    let mut db = test_db();
    let mut tasks = TaskManager::new(1);
    insert(&mut db, "a", 1, 10.0);
    insert(&mut db, "b", 2, 20.0);

    let pairs = ViewQuery::new(scores_by_rank())
        .query_with_docs(&mut db, &mut tasks, &ScoresByRank)
        .unwrap();
    assert_eq!(pairs.len(), 2);
    assert_eq!(pairs[0].0.source, pairs[0].1.header.id);
    assert_eq!(rank_of(&pairs[0].1.contents), 1);
    assert_eq!(rank_of(&pairs[1].1.contents), 2);

    // A row whose document is gone is silently skipped: stale rows can
    // point at deleted documents until the mapper catches up.
    let doc = db.get(&my_collection(), 1).unwrap().unwrap();
    db.apply_transaction(&Transaction::delete(my_collection(), doc.header))
        .unwrap();
    let pairs = ViewQuery::new(scores_by_rank())
        .with_access_policy(AccessPolicy::NoUpdate)
        .query_with_docs(&mut db, &mut tasks, &ScoresByRank)
        .unwrap();
    assert_eq!(pairs.len(), 1);
    assert_eq!(pairs[0].1.header.id, 2);
}

#[test]
fn delete_docs_removes_every_matched_document_once() {
    let mut db = test_db();
    let mut tasks = TaskManager::new(1);
    insert(&mut db, "a", 1, 10.0);
    insert(&mut db, "b", 1, 20.0);
    insert(&mut db, "c", 2, 30.0);

    let deleted = ViewQuery::new(scores_by_rank())
        .with_key(1u64)
        .delete_docs(&mut db, &mut tasks, &ScoresByRank)
        .unwrap();
    assert_eq!(deleted, 2);
    assert!(db.get(&my_collection(), 1).unwrap().is_none());
    assert!(db.get(&my_collection(), 2).unwrap().is_none());
    assert!(db.get(&my_collection(), 3).unwrap().is_some());
    // The two deletes were one atomic transaction: one log record with
    // both tombstones.
    let last = db.list_executed_transactions(Some(4), None);
    assert_eq!(last.len(), 1);
    let changes = last[0].changes.documents().unwrap();
    assert_eq!(changes.len(), 2);
    assert!(changes[0].deleted && changes[1].deleted);

    // With nothing matching, nothing is deleted and no record appends.
    let deleted = ViewQuery::new(scores_by_rank())
        .with_key(9u64)
        .delete_docs(&mut db, &mut tasks, &ScoresByRank)
        .unwrap();
    assert_eq!(deleted, 0);
    assert_eq!(db.last_transaction_id(), Some(4));
}
