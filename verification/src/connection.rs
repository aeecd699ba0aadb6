//! The connection facade: typed handles over collections and view
//! query builders. Every method funnels into the transaction engine or
//! the view engine; no rule of its own lives here.

use vstd::prelude::*;

use crate::document::{Header, OwnedDocument};
use crate::error::{Error, ErrorView, NotFound, NotFoundView};
use crate::key::{AccessPolicy, Key, QueryKey, Range, Sort};
use crate::names::{CollectionName, SchemaName, ViewName};
use crate::schema::ViewSchema;
use crate::store::{collection_index, has_collection, op_outcome, Database as Db, OpOutcome};
use crate::store::{apply_ops, log_is_full, results_view, CollectionModel};
use crate::store::{change_of_result, changes_of};
use crate::transaction::{ChangedDocumentView, ChangesView, CommandView, ExecutedView,
    OperationResultView, OperationView};
use crate::tasks::{Task, TaskManager, ViewMapping};
use crate::transaction::{Operation, OperationResult, Transaction};
use crate::view::{entries_view, query_spec, ViewEntry};

verus! {

/// A database's admin record: its name and the schema it was created
/// under.
#[derive(Debug)]
pub struct Database {
    /// The name of the database.
    pub name: String,
    /// The schema defining the database.
    pub schema: SchemaName,
}

impl Database {
    /// An identical copy of this record.
    pub fn duplicate(&self) -> (r: Self)
        ensures
            r.name@ == self.name@,
            r.schema@ == self.schema@,
    {
        Database { name: self.name.clone(), schema: self.schema.duplicate() }
    }

    /// A copy of this record carrying the schema name given.
    pub fn duplicate_with_schema(&self, schema: &SchemaName) -> (r: Self)
        ensures
            r.name@ == self.name@,
            r.schema@ == schema@,
    {
        Database { name: self.name.clone(), schema: schema.duplicate() }
    }
}

/// A plain-text secret. The engine never formats its contents; the
/// surrounding program is expected to wipe the backing memory when the
/// value is dropped.
pub struct SensitiveString(pub String);

impl SensitiveString {
    /// A masked form for display, never the contents.
    pub fn masked(&self) -> (r: String)
        ensures
            r@ == "SensitiveString(...)"@,
    {
        "SensitiveString(...)".to_owned()
    }
}

/// User authentication methods.
pub enum Authentication {
    /// Authenticate using a password.
    Password(SensitiveString),
}

/// Interacts with a collection over a database.
#[derive(Debug)]
pub struct Collection {
    /// The collection's stable name.
    pub name: CollectionName,
}

impl Collection {
    /// Creates a handle for the collection named `name`.
    pub fn new(name: CollectionName) -> (r: Self)
        ensures
            r.name@ == name@,
    {
        Collection { name }
    }

    /// Adds a new document with `contents`, under a freshly assigned
    /// id.
    pub fn push(&self, db: &mut Db, contents: Vec<u8>) -> (r: Result<Header, Error>)
        requires
            old(db).wf(),
        ensures
            final(db).wf(),
            single_op_applied(
                old(db),
                final(db),
                OperationView {
                    collection: self.name@,
                    command: CommandView::Insert { id: None, contents: contents@ },
                },
                r,
            ),
    {
        let transaction = Transaction::insert(self.name.duplicate(), None, contents);
        let ghost opv = OperationView {
            collection: self.name@,
            command: CommandView::Insert { id: None, contents: contents@ },
        };
        proof {
            assert(transaction@[0] == opv);
        }
        let step = db.apply_transaction(&transaction);
        proof {
            lemma_single_op(old(db).models(), transaction@);
        }
        match step {
            Ok(results) => {
                let ghost resv = results@;
                proof {
                    assert(apply_ops(old(db).models(), transaction@) is Committed);
                    assert(transaction@ =~= seq![opv]);
                    assert(apply_ops(old(db).models(), seq![opv]) is Committed);
                    assert(has_collection(old(db).models(), opv.collection));
                    let ci = collection_index(old(db).models(), opv.collection);
                    assert(op_outcome(old(db).models()[ci], opv) is Success);
                    assert(results_view(resv).len() == 1);
                    assert(results_view(resv) == Seq::<OperationResultView>::empty().push(
                        op_outcome(old(db).models()[ci], opv)->Success_result,
                    ));
                    assert(results_view(resv)[0] == resv[0]@);
                    assert(Seq::<OperationResultView>::empty().push(
                        op_outcome(old(db).models()[ci], opv)->Success_result,
                    )[0] == op_outcome(old(db).models()[ci], opv)->Success_result);
                    assert(resv[0]@ == op_outcome(
                        old(db).models()[ci],
                        opv,
                    )->Success_result);
                    let res0 = op_outcome(old(db).models()[ci], opv)->Success_result;
                    assert(results_view(resv) =~= seq![res0]);
                    assert(changes_of(results_view(resv)) =~= seq![change_of_result(res0)]);
                }
                first_updated_header(results)
            },
            Err(e) => Err(e),
        }
    }

    /// Adds a new document with `contents` under the id given; a taken
    /// id fails the insert.
    pub fn insert(&self, db: &mut Db, id: u64, contents: Vec<u8>) -> (r: Result<Header, Error>)
        requires
            old(db).wf(),
        ensures
            final(db).wf(),
            single_op_applied(
                old(db),
                final(db),
                OperationView {
                    collection: self.name@,
                    command: CommandView::Insert { id: Some(id), contents: contents@ },
                },
                r,
            ),
    {
        let transaction = Transaction::insert(self.name.duplicate(), Some(id), contents);
        let ghost opv = OperationView {
            collection: self.name@,
            command: CommandView::Insert { id: Some(id), contents: contents@ },
        };
        proof {
            assert(transaction@[0] == opv);
        }
        let step = db.apply_transaction(&transaction);
        proof {
            lemma_single_op(old(db).models(), transaction@);
        }
        match step {
            Ok(results) => {
                let ghost resv = results@;
                proof {
                    assert(apply_ops(old(db).models(), transaction@) is Committed);
                    assert(transaction@ =~= seq![opv]);
                    assert(apply_ops(old(db).models(), seq![opv]) is Committed);
                    assert(has_collection(old(db).models(), opv.collection));
                    let ci = collection_index(old(db).models(), opv.collection);
                    assert(op_outcome(old(db).models()[ci], opv) is Success);
                    assert(results_view(resv).len() == 1);
                    assert(results_view(resv) == Seq::<OperationResultView>::empty().push(
                        op_outcome(old(db).models()[ci], opv)->Success_result,
                    ));
                    assert(results_view(resv)[0] == resv[0]@);
                    assert(Seq::<OperationResultView>::empty().push(
                        op_outcome(old(db).models()[ci], opv)->Success_result,
                    )[0] == op_outcome(old(db).models()[ci], opv)->Success_result);
                    assert(resv[0]@ == op_outcome(
                        old(db).models()[ci],
                        opv,
                    )->Success_result);
                    let res0 = op_outcome(old(db).models()[ci], opv)->Success_result;
                    assert(results_view(resv) =~= seq![res0]);
                    assert(changes_of(results_view(resv)) =~= seq![change_of_result(res0)]);
                }
                first_updated_header(results)
            },
            Err(e) => Err(e),
        }
    }

    /// Updates the document `header` identifies to hold `contents`; the
    /// presented revision must match the stored one.
    pub fn update(&self, db: &mut Db, header: Header, contents: Vec<u8>) -> (r: Result<
        Header,
        Error,
    >)
        requires
            old(db).wf(),
        ensures
            final(db).wf(),
            single_op_applied(
                old(db),
                final(db),
                OperationView {
                    collection: self.name@,
                    command: CommandView::Update { header: header@, contents: contents@ },
                },
                r,
            ),
    {
        let ghost hv = header@;
        let transaction = Transaction::update(self.name.duplicate(), header, contents);
        let ghost opv = OperationView {
            collection: self.name@,
            command: CommandView::Update { header: hv, contents: contents@ },
        };
        proof {
            assert(transaction@[0] == opv);
        }
        let step = db.apply_transaction(&transaction);
        proof {
            lemma_single_op(old(db).models(), transaction@);
        }
        match step {
            Ok(results) => {
                let ghost resv = results@;
                proof {
                    assert(apply_ops(old(db).models(), transaction@) is Committed);
                    assert(transaction@ =~= seq![opv]);
                    assert(apply_ops(old(db).models(), seq![opv]) is Committed);
                    assert(has_collection(old(db).models(), opv.collection));
                    let ci = collection_index(old(db).models(), opv.collection);
                    assert(op_outcome(old(db).models()[ci], opv) is Success);
                    assert(results_view(resv).len() == 1);
                    assert(results_view(resv) == Seq::<OperationResultView>::empty().push(
                        op_outcome(old(db).models()[ci], opv)->Success_result,
                    ));
                    assert(results_view(resv)[0] == resv[0]@);
                    assert(Seq::<OperationResultView>::empty().push(
                        op_outcome(old(db).models()[ci], opv)->Success_result,
                    )[0] == op_outcome(old(db).models()[ci], opv)->Success_result);
                    assert(resv[0]@ == op_outcome(
                        old(db).models()[ci],
                        opv,
                    )->Success_result);
                    let res0 = op_outcome(old(db).models()[ci], opv)->Success_result;
                    assert(results_view(resv) =~= seq![res0]);
                    assert(changes_of(results_view(resv)) =~= seq![change_of_result(res0)]);
                }
                first_updated_header(results)
            },
            Err(e) => Err(e),
        }
    }

    /// Retrieves the document with `id`.
    pub fn get(&self, db: &Db, id: u64) -> (r: Result<Option<OwnedDocument>, Error>)
        requires
            db.wf(),
        ensures
            match r {
                Ok(found) => has_collection(db.models(), self.name@) && {
                    let m = db.models()[collection_index(db.models(), self.name@)].docs;
                    match found {
                        Some(doc) => m.contains_key(id) && doc@ == crate::store::doc_view_of(
                            id,
                            m[id],
                        ),
                        None => !m.contains_key(id),
                    }
                },
                Err(e) => !has_collection(db.models(), self.name@) && e@ == ErrorView::NotFound(
                    NotFoundView::Collection { collection: self.name@ },
                ),
            },
    {
        db.get(&self.name, id)
    }

    /// Retrieves the documents matching `ids`, in request order,
    /// silently skipping missing ids.
    pub fn get_multiple(&self, db: &Db, ids: &Vec<u64>) -> (r: Result<Vec<OwnedDocument>, Error>)
        requires
            db.wf(),
        ensures
            match r {
                Ok(docs) => has_collection(db.models(), self.name@)
                    && crate::store::read_docs_view(docs@) == crate::store::multi_get(
                    db.models()[collection_index(db.models(), self.name@)].docs,
                    ids@,
                ),
                Err(e) => !has_collection(db.models(), self.name@) && e@ == ErrorView::NotFound(
                    NotFoundView::Collection { collection: self.name@ },
                ),
            },
    {
        db.get_multiple(&self.name, ids)
    }

    /// Lists the documents whose ids fall in `ids`.
    pub fn list(&self, db: &Db, ids: Range<u64>, order: Sort, limit: Option<usize>) -> (r: Result<
        Vec<OwnedDocument>,
        Error,
    >)
        requires
            db.wf(),
        ensures
            match r {
                Ok(docs) => has_collection(db.models(), self.name@)
                    && crate::store::read_docs_view(docs@) == crate::store::list_spec(
                    db.collections@[collection_index(db.models(), self.name@)].doc_seq(),
                    ids,
                    order,
                    limit,
                ),
                Err(e) => !has_collection(db.models(), self.name@) && e@ == ErrorView::NotFound(
                    NotFoundView::Collection { collection: self.name@ },
                ),
            },
    {
        db.list(&self.name, ids, order, limit)
    }

    /// Removes the document `header` identifies; the presented revision
    /// must match the stored one, the document leaves the store, and the
    /// log gains its tombstone.
    pub fn delete(&self, db: &mut Db, header: Header) -> (r: Result<(), Error>)
        requires
            old(db).wf(),
        ensures
            final(db).wf(),
            single_delete_applied(
                old(db),
                final(db),
                OperationView {
                    collection: self.name@,
                    command: CommandView::Delete { header: header@ },
                },
                header@,
                r,
            ),
    {
        let ghost hv = header@;
        let transaction = Transaction::delete(self.name.duplicate(), header);
        let ghost opv = OperationView {
            collection: self.name@,
            command: CommandView::Delete { header: hv },
        };
        proof {
            assert(transaction@[0] == opv);
        }
        let step = db.apply_transaction(&transaction);
        proof {
            lemma_single_op(old(db).models(), transaction@);
        }
        match step {
            Ok(results) => {
                let ghost resv = results@;
                proof {
                    assert(apply_ops(old(db).models(), transaction@) is Committed);
                    assert(transaction@ =~= seq![opv]);
                    assert(apply_ops(old(db).models(), seq![opv]) is Committed);
                    assert(has_collection(old(db).models(), opv.collection));
                    let ci = collection_index(old(db).models(), opv.collection);
                    assert(op_outcome(old(db).models()[ci], opv) is Success);
                    let res0 = op_outcome(old(db).models()[ci], opv)->Success_result;
                    assert(results_view(resv) == Seq::<OperationResultView>::empty().push(res0));
                    assert(results_view(resv) =~= seq![res0]);
                    // The delete outcome names exactly the tombstone the
                    // log record must carry.
                    assert(old(db).models()[ci].name == opv.collection);
                    assert(res0 == (OperationResultView::DocumentDeleted {
                        collection: old(db).models()[ci].name,
                        id: hv.id,
                    }));
                    assert(changes_of(results_view(resv)) =~= seq![
                        ChangedDocumentView { collection: opv.collection, id: hv.id, deleted: true },
                    ]);
                }
                Ok(())
            },
            Err(e) => Err(e),
        }
    }
}

/// How a single-operation transaction relates the states before and
/// after: success means the operation's outcome was installed and the
/// returned header is the one the result reported; failure means
/// nothing changed, and -- room permitting in the log -- the error is
/// the one the operation's outcome or the collection lookup names.
pub open spec fn single_op_applied(
    before: &Db,
    after: &Db,
    op: OperationView,
    r: Result<Header, Error>,
) -> bool {
    match r {
        Ok(header) => {
            &&& has_collection(before.models(), op.collection)
            &&& op_outcome(
                before.models()[collection_index(before.models(), op.collection)],
                op,
            ) matches OpOutcome::Success { collection, result } && after.models()
                == before.models().update(
                collection_index(before.models(), op.collection),
                collection,
            ) && (result matches OperationResultView::DocumentUpdated { header: h, .. } && header@
                == h) && after.log() == before.log().push(
                ExecutedView {
                    id: (before.log().len() + 1) as u64,
                    changes: ChangesView::Documents(seq![change_of_result(result)]),
                },
            )
        },
        Err(e) => single_op_failed(before, after, op, e),
    }
}

/// How a failed single-operation transaction relates the states: it is
/// all-or-nothing, and -- room permitting in the log -- the error is
/// the operation's own or the collection lookup's.
pub open spec fn single_op_failed(before: &Db, after: &Db, op: OperationView, e: Error) -> bool {
    &&& *after == *before
    &&& (!log_is_full(before.transactions@.len()) && has_collection(before.models(), op.collection)
        ==> (op_outcome(
        before.models()[collection_index(before.models(), op.collection)],
        op,
    ) matches OpOutcome::Failure { error } && e@ == error))
    &&& (!log_is_full(before.transactions@.len()) && !has_collection(
        before.models(),
        op.collection,
    ) ==> e@ == ErrorView::NotFound(NotFoundView::Collection { collection: op.collection }))
}

/// How a single-delete transaction relates the states before and after:
/// success removes exactly the named document and appends one log
/// record holding its tombstone; failure changes nothing and carries
/// the revision-check or lookup error.
pub open spec fn single_delete_applied(
    before: &Db,
    after: &Db,
    op: OperationView,
    header: crate::document::HeaderView,
    r: Result<(), Error>,
) -> bool {
    match r {
        Ok(()) => {
            &&& has_collection(before.models(), op.collection)
            &&& op_outcome(
                before.models()[collection_index(before.models(), op.collection)],
                op,
            ) matches OpOutcome::Success { collection, result } && after.models()
                == before.models().update(
                collection_index(before.models(), op.collection),
                collection,
            ) && collection.docs == before.models()[collection_index(
                before.models(),
                op.collection,
            )].docs.remove(header.id) && !collection.docs.contains_key(header.id) && after.log()
                == before.log().push(
                ExecutedView {
                    id: (before.log().len() + 1) as u64,
                    changes: ChangesView::Documents(
                        seq![
                            ChangedDocumentView {
                                collection: op.collection,
                                id: header.id,
                                deleted: true,
                            },
                        ],
                    ),
                },
            )
        },
        Err(e) => single_op_failed(before, after, op, e),
    }
}

/// How `apply_ops` unfolds on a one-operation transaction.
proof fn lemma_single_op(ms: Seq<CollectionModel>, ops: Seq<OperationView>)
    requires
        ops.len() == 1,
    ensures
        crate::store::apply_ops(ms, ops) == (if !has_collection(ms, ops[0].collection) {
            crate::store::TxnOutcome::Failed {
                error: ErrorView::NotFound(
                    NotFoundView::Collection { collection: ops[0].collection },
                ),
            }
        } else {
            let ci = collection_index(ms, ops[0].collection);
            match op_outcome(ms[ci], ops[0]) {
                OpOutcome::Success { collection, result } => crate::store::TxnOutcome::Committed {
                    collections: ms.update(ci, collection),
                    results: Seq::empty().push(result),
                },
                OpOutcome::Failure { error } => crate::store::TxnOutcome::Failed { error },
            }
        }),
{
    assert(ops.drop_last() =~= Seq::<OperationView>::empty());
    assert(ops.last() == ops[0]);
    assert(crate::store::apply_ops(ms, Seq::<OperationView>::empty()) == (
    crate::store::TxnOutcome::Committed { collections: ms, results: Seq::empty() }));
}

/// The header of a single-operation transaction's one result.
fn first_updated_header(results: Vec<OperationResult>) -> (r: Result<Header, Error>)
    ensures
        match r {
            Ok(header) => results@.len() > 0 && (results@[0]@ matches
                crate::transaction::OperationResultView::DocumentUpdated {
                header: h,
                ..
            } && header@ == h),
            Err(e) => (results@.len() == 0 || !(results@[0]@ is DocumentUpdated)) && e is Internal,
        },
{
    if results.len() == 0 {
        return Err(Error::Internal);
    }
    match &results[0] {
        OperationResult::DocumentUpdated { header, .. } => Ok(header.duplicate()),
        _ => Err(Error::Internal),
    }
}

/// Parameters of a view query, built up and then executed.
#[derive(Debug)]
pub struct ViewQuery {
    /// The view being queried.
    pub name: ViewName,
    /// Key filtering criteria, in encoded form.
    pub key: Option<QueryKey<Vec<u8>>>,
    /// The freshness-versus-latency trade-off for this query.
    pub access_policy: AccessPolicy,
    /// The sort order of the results.
    pub sort: Sort,
    /// The maximum number of results to return.
    pub limit: Option<usize>,
}

impl ViewQuery {
    /// A query over the view named `name`, with no filter, ascending,
    /// unbounded, updating the view before returning.
    pub fn new(name: ViewName) -> (r: Self)
        ensures
            r.name@ == name@,
            r.key is None,
            r.access_policy == AccessPolicy::UpdateBefore,
            r.sort == Sort::Ascending,
            r.limit is None,
    {
        ViewQuery {
            name,
            key: None,
            access_policy: AccessPolicy::UpdateBefore,
            sort: Sort::Ascending,
            limit: None,
        }
    }

    /// Filters for entries with the key given.
    pub fn with_key<K: Key>(self, key: K) -> (r: Self)
        ensures
            r.key matches Some(QueryKey::Matches(b)) && b@ == key.encoded(),
            r.name@ == self.name@,
            r.access_policy == self.access_policy,
            r.sort == self.sort,
            r.limit == self.limit,
    {
        ViewQuery { key: Some(QueryKey::Matches(key.as_big_endian_bytes())), ..self }
    }

    /// Filters for entries whose key is one of the keys given.
    pub fn with_keys<K: Key>(self, keys: &Vec<K>) -> (r: Self)
        ensures
            r.key matches Some(QueryKey::Multiple(bs)) && bs@.len() == keys@.len() && (forall|
                i: int,
            |
                0 <= i < keys@.len() ==> (#[trigger] bs@[i])@ == keys@[i].encoded()),
            r.name@ == self.name@,
            r.access_policy == self.access_policy,
            r.sort == self.sort,
            r.limit == self.limit,
    {
        let mut encoded: Vec<Vec<u8>> = Vec::new();
        let mut i: usize = 0;
        while i < keys.len()
            invariant
                0 <= i <= keys@.len(),
                encoded@.len() == i,
                forall|j: int| 0 <= j < i ==> (#[trigger] encoded@[j])@ == keys@[j].encoded(),
            decreases keys@.len() - i,
        {
            encoded.push(keys[i].as_big_endian_bytes());
            i += 1;
        }
        ViewQuery { key: Some(QueryKey::Multiple(encoded)), ..self }
    }

    /// Filters for entries with keys in the range given.
    pub fn with_key_range<K: Key>(self, range: Range<K>) -> (r: Self)
        ensures
            r.key matches Some(QueryKey::Range(br)) && crate::key::bound_encoded(
                range.start,
                br.start,
            ) && crate::key::bound_encoded(range.end, br.end),
            r.name@ == self.name@,
            r.access_policy == self.access_policy,
            r.sort == self.sort,
            r.limit == self.limit,
    {
        ViewQuery { key: Some(QueryKey::Range(range.as_big_endian_bytes())), ..self }
    }

    /// Sets the access policy for the query.
    pub fn with_access_policy(self, policy: AccessPolicy) -> (r: Self)
        ensures
            r.access_policy == policy,
            r.name@ == self.name@,
            r.key == self.key,
            r.sort == self.sort,
            r.limit == self.limit,
    {
        ViewQuery { access_policy: policy, ..self }
    }

    /// Queries the view in ascending key order.
    pub fn ascending(self) -> (r: Self)
        ensures
            r.sort == Sort::Ascending,
            r.name@ == self.name@,
            r.key == self.key,
            r.access_policy == self.access_policy,
            r.limit == self.limit,
    {
        ViewQuery { sort: Sort::Ascending, ..self }
    }

    /// Queries the view in descending key order.
    pub fn descending(self) -> (r: Self)
        ensures
            r.sort == Sort::Descending,
            r.name@ == self.name@,
            r.key == self.key,
            r.access_policy == self.access_policy,
            r.limit == self.limit,
    {
        ViewQuery { sort: Sort::Descending, ..self }
    }

    /// Sets the maximum number of results to return.
    pub fn limit(self, maximum_results: usize) -> (r: Self)
        ensures
            r.limit == Some(maximum_results),
            r.name@ == self.name@,
            r.key == self.key,
            r.access_policy == self.access_policy,
            r.sort == self.sort,
    {
        ViewQuery { limit: Some(maximum_results), ..self }
    }

    /// Executes the query: under `UpdateBefore` the mapper first runs
    /// to completion; under `UpdateAfter` a mapper job is enqueued
    /// after reading; under `NoUpdate` the current contents are
    /// returned as they stand.
    pub fn query<V: ViewSchema>(self, db: &mut Db, tasks: &mut TaskManager, schema: &V) -> (r:
        Result<Vec<ViewEntry>, Error>)
        requires
            old(db).wf(),
            old(tasks).wf(),
        ensures
            final(db).wf(),
            final(tasks).wf(),
            self.access_policy == AccessPolicy::NoUpdate ==> *final(db) == *old(db)
                && *final(tasks) == *old(tasks),
            self.access_policy == AccessPolicy::UpdateBefore ==> *final(tasks) == *old(tasks),
            r is Ok && self.access_policy == AccessPolicy::UpdateAfter ==> *final(db) == *old(db)
                && final(tasks).table() == crate::tasks::enqueue_spec(
                old(tasks).table(),
                crate::tasks::TaskView::ViewMap(
                    crate::tasks::ViewMappingView { database: old(db).name@, view: self.name@ },
                ),
            ),
            r is Err ==> *final(db) == *old(db) && *final(tasks) == *old(tasks),
            match r {
                Ok(rows) => exists|vi: int|
                    {
                        &&& 0 <= vi < final(db).views@.len()
                        &&& (#[trigger] final(db).views@[vi]).name@ == self.name@
                        &&& entries_view(rows@) == query_spec(
                            final(db).views@[vi].rows(),
                            self.key,
                            self.sort,
                            self.limit,
                        )
                        &&& (self.access_policy == AccessPolicy::UpdateBefore ==> final(db).views@[vi].invalidated@.len() == 0)
                    },
                Err(e) => !view_available(old(db), self.name@) && e@ == ErrorView::NotFound(
                    NotFoundView::View { view: self.name@ },
                ),
            },
    {
        let vi = match find_view(db, &self.name) {
            Some(vi) => vi,
            None => {
                return Err(Error::NotFound(NotFound::View { view: self.name }));
            },
        };
        match self.access_policy {
            AccessPolicy::UpdateBefore => {
                db.refresh_view(schema, vi);
            },
            AccessPolicy::UpdateAfter => {
                let job = Task::ViewMap(
                    ViewMapping { database: db.name.clone(), view: self.name.duplicate() },
                );
                tasks.enqueue(job);
            },
            AccessPolicy::NoUpdate => {},
        }
        let rows = db.query_view(vi, self.key.as_ref(), self.sort, self.limit);
        proof {
            assert(db.views@[vi as int].name@ == self.name@);
        }
        Ok(rows)
    }

    /// Reduces the entries the key filter accepts with one call of the
    /// view's reduce function, under the same access policy as `query`.
    pub fn reduce<V: ViewSchema>(self, db: &mut Db, tasks: &mut TaskManager, schema: &V) -> (r:
        Result<Vec<u8>, Error>)
        requires
            old(db).wf(),
            old(tasks).wf(),
        ensures
            final(db).wf(),
            final(tasks).wf(),
            self.access_policy == AccessPolicy::NoUpdate ==> *final(db) == *old(db)
                && *final(tasks) == *old(tasks),
            self.access_policy == AccessPolicy::UpdateBefore ==> *final(tasks) == *old(tasks),
            r is Ok && self.access_policy == AccessPolicy::UpdateAfter ==> *final(db) == *old(db)
                && final(tasks).table() == crate::tasks::enqueue_spec(
                old(tasks).table(),
                crate::tasks::TaskView::ViewMap(
                    crate::tasks::ViewMappingView { database: old(db).name@, view: self.name@ },
                ),
            ),
            r is Err ==> *final(db) == *old(db) && *final(tasks) == *old(tasks),
            match r {
                Ok(value) => exists|vi: int|
                    {
                        &&& 0 <= vi < final(db).views@.len()
                        &&& (#[trigger] final(db).views@[vi]).name@ == self.name@
                        &&& value@ == schema.reduce_spec(
                            crate::view::row_pairs(
                                query_spec(
                                    final(db).views@[vi].rows(),
                                    self.key,
                                    Sort::Ascending,
                                    None,
                                ),
                            ),
                            false,
                        )
                    },
                Err(e) => !view_available(old(db), self.name@) && e@ == ErrorView::NotFound(
                    NotFoundView::View { view: self.name@ },
                ),
            },
    {
        let vi = match find_view(db, &self.name) {
            Some(vi) => vi,
            None => {
                return Err(Error::NotFound(NotFound::View { view: self.name }));
            },
        };
        match self.access_policy {
            AccessPolicy::UpdateBefore => {
                db.refresh_view(schema, vi);
            },
            AccessPolicy::UpdateAfter => {
                let job = Task::ViewMap(
                    ViewMapping { database: db.name.clone(), view: self.name.duplicate() },
                );
                tasks.enqueue(job);
            },
            AccessPolicy::NoUpdate => {},
        }
        let value = db.reduce_view(schema, vi, self.key.as_ref());
        Ok(value)
    }

    /// Executes the query and follows each row with a fetch of its
    /// source document; rows whose document is gone are silently
    /// skipped. The access policy acts as in `query`.
    pub fn query_with_docs<V: ViewSchema>(self, db: &mut Db, tasks: &mut TaskManager, schema: &V) -> (r:
        Result<Vec<(ViewEntry, OwnedDocument)>, Error>)
        requires
            old(db).wf(),
            old(tasks).wf(),
        ensures
            final(db).wf(),
            final(tasks).wf(),
            self.access_policy == AccessPolicy::NoUpdate ==> *final(db) == *old(db)
                && *final(tasks) == *old(tasks),
            self.access_policy == AccessPolicy::UpdateBefore ==> *final(tasks) == *old(tasks),
            r is Ok && self.access_policy == AccessPolicy::UpdateAfter ==> *final(db) == *old(db)
                && final(tasks).table() == crate::tasks::enqueue_spec(
                old(tasks).table(),
                crate::tasks::TaskView::ViewMap(
                    crate::tasks::ViewMappingView { database: old(db).name@, view: self.name@ },
                ),
            ),
            r is Err ==> *final(db) == *old(db) && *final(tasks) == *old(tasks),
            match r {
                Ok(pairs) => exists|vi: int|
                    {
                        &&& 0 <= vi < final(db).views@.len()
                        &&& (#[trigger] final(db).views@[vi]).name@ == self.name@
                        &&& has_collection(final(db).models(), self.name@.collection)
                        &&& row_doc_views(pairs@) == rows_with_docs(
                            final(db).models()[collection_index(
                                final(db).models(),
                                self.name@.collection,
                            )].docs,
                            query_spec(
                                final(db).views@[vi].rows(),
                                self.key,
                                self.sort,
                                self.limit,
                            ),
                        )
                    },
                Err(e) => !view_available(old(db), self.name@) && e@ == ErrorView::NotFound(
                    NotFoundView::View { view: self.name@ },
                ),
            },
    {
        let vi = match find_view(db, &self.name) {
            Some(vi) => vi,
            None => {
                return Err(Error::NotFound(NotFound::View { view: self.name }));
            },
        };
        match self.access_policy {
            AccessPolicy::UpdateBefore => {
                db.refresh_view(schema, vi);
            },
            AccessPolicy::UpdateAfter => {
                let job = Task::ViewMap(
                    ViewMapping { database: db.name.clone(), view: self.name.duplicate() },
                );
                tasks.enqueue(job);
            },
            AccessPolicy::NoUpdate => {},
        }
        let rows = db.query_view(vi, self.key.as_ref(), self.sort, self.limit);
        proof {
            assert(db.views@[vi as int].name@ == self.name@);
            assert(has_collection(db.models(), self.name@.collection));
        }
        let ghost m = db.models()[collection_index(db.models(), self.name@.collection)].docs;
        let collection = self.name.collection.duplicate();
        let ghost rowviews = crate::view::entries_view(rows@);
        let mut out: Vec<(ViewEntry, OwnedDocument)> = Vec::new();
        let mut i: usize = 0;
        proof {
            assert(rowviews.take(0) =~= Seq::<crate::view::ViewEntryView>::empty());
            assert(row_doc_views(out@) =~= rows_with_docs(m, rowviews.take(0)));
        }
        while i < rows.len()
            invariant
                db.wf(),
                0 <= i <= rows@.len(),
                rowviews == crate::view::entries_view(rows@),
                collection@ == self.name@.collection,
                has_collection(db.models(), collection@),
                m == db.models()[collection_index(db.models(), collection@)].docs,
                row_doc_views(out@) == rows_with_docs(m, rowviews.take(i as int)),
            decreases rows@.len() - i,
        {
            proof {
                assert(rowviews.take(i + 1).drop_last() =~= rowviews.take(i as int));
                assert(rowviews.take(i + 1).last() == rowviews[i as int]);
            }
            let ghost out_before = out@;
            let source = rows[i].source;
            match db.get(&collection, source) {
                Ok(Some(doc)) => {
                    out.push((rows[i].duplicate(), doc));
                    proof {
                        assert(row_doc_views(out@) =~= row_doc_views(out_before).push(
                            (out@.last().0@, out@.last().1@),
                        ));
                    }
                },
                Ok(None) => {},
                Err(_) => {
                    proof {
                        assert(false);
                    }
                },
            }
            i += 1;
        }
        proof {
            assert(rowviews.take(rowviews.len() as int) =~= rowviews);
        }
        Ok(out)
    }

    /// Deletes every document the query's rows point at, each once,
    /// under its current revision, in one atomic transaction; rows
    /// whose document is already gone are skipped. Returns how many
    /// documents were deleted.
    pub fn delete_docs<V: ViewSchema>(self, db: &mut Db, tasks: &mut TaskManager, schema: &V) -> (r:
        Result<u64, Error>)
        requires
            old(db).wf(),
            old(tasks).wf(),
        ensures
            final(db).wf(),
            final(tasks).wf(),
            self.access_policy == AccessPolicy::UpdateBefore ==> *final(tasks) == *old(tasks),
            match r {
                Ok(count) => exists|vi: int|
                    {
                        &&& 0 <= vi < final(db).views@.len()
                        &&& (#[trigger] final(db).views@[vi]).name@ == self.name@
                        &&& has_collection(old(db).models(), self.name@.collection)
                        &&& ({
                            let m = old(db).models()[collection_index(
                                old(db).models(),
                                self.name@.collection,
                            )].docs;
                            let rows = query_spec(
                                final(db).views@[vi].rows(),
                                self.key,
                                Sort::Ascending,
                                None,
                            );
                            let ops = present_delete_ops(
                                m,
                                self.name@.collection,
                                distinct_sources(rows),
                            );
                            &&& count == ops.len()
                            &&& (ops.len() > 0 ==> (apply_ops(old(db).models(), ops)
                                matches crate::store::TxnOutcome::Committed { collections, results }
                                && final(db).models() == collections && final(db).log().len()
                                == old(db).log().len() + 1))
                            &&& (ops.len() == 0 ==> final(db).models() == old(db).models()
                                && final(db).log() == old(db).log())
                        })
                    },
                Err(e) => {
                    if !view_available(old(db), self.name@) {
                        &&& e@ == ErrorView::NotFound(NotFoundView::View { view: self.name@ })
                        &&& *final(db) == *old(db)
                    } else {
                        exists|vi: int|
                            {
                                &&& 0 <= vi < final(db).views@.len()
                                &&& (#[trigger] final(db).views@[vi]).name@ == self.name@
                                &&& has_collection(old(db).models(), self.name@.collection)
                                &&& final(db).models() == old(db).models()
                                &&& final(db).log() == old(db).log()
                                &&& ({
                                    let m = old(db).models()[collection_index(
                                        old(db).models(),
                                        self.name@.collection,
                                    )].docs;
                                    let rows = query_spec(
                                        final(db).views@[vi].rows(),
                                        self.key,
                                        Sort::Ascending,
                                        None,
                                    );
                                    let ops = present_delete_ops(
                                        m,
                                        self.name@.collection,
                                        distinct_sources(rows),
                                    );
                                    &&& ops.len() > 0
                                    &&& (crate::store::log_is_full(old(db).transactions@.len())
                                        ==> e is Internal)
                                    &&& (!crate::store::log_is_full(old(db).transactions@.len())
                                        ==> (apply_ops(old(db).models(), ops)
                                        matches crate::store::TxnOutcome::Failed { error } && e@
                                        == error))
                                })
                            }
                    }
                },
            },
    {
        let vi = match find_view(db, &self.name) {
            Some(vi) => vi,
            None => {
                return Err(Error::NotFound(NotFound::View { view: self.name }));
            },
        };
        match self.access_policy {
            AccessPolicy::UpdateBefore => {
                db.refresh_view(schema, vi);
            },
            AccessPolicy::UpdateAfter => {
                let job = Task::ViewMap(
                    ViewMapping { database: db.name.clone(), view: self.name.duplicate() },
                );
                tasks.enqueue(job);
            },
            AccessPolicy::NoUpdate => {},
        }
        let rows = db.query_view(vi, self.key.as_ref(), Sort::Ascending, None);
        proof {
            assert(db.views@[vi as int].name@ == self.name@);
            assert(has_collection(db.models(), self.name@.collection));
        }
        let ghost m = db.models()[collection_index(db.models(), self.name@.collection)].docs;
        let ghost models_before = db.models();
        let collection = self.name.collection.duplicate();
        let ghost rowviews = crate::view::entries_view(rows@);
        // Collect one delete per distinct present source, under its
        // current revision.
        let mut seen: Vec<u64> = Vec::new();
        let mut ops: Vec<Operation> = Vec::new();
        let mut i: usize = 0;
        proof {
            assert(rowviews.take(0) =~= Seq::<crate::view::ViewEntryView>::empty());
            assert(seen@ =~= distinct_sources(rowviews.take(0)));
            assert(crate::transaction::operations_view(ops@) =~= present_delete_ops(
                m,
                collection@,
                distinct_sources(rowviews.take(0)),
            ));
        }
        while i < rows.len()
            invariant
                db.wf(),
                0 <= i <= rows@.len(),
                rowviews == crate::view::entries_view(rows@),
                collection@ == self.name@.collection,
                has_collection(db.models(), collection@),
                m == db.models()[collection_index(db.models(), collection@)].docs,
                seen@ == distinct_sources(rowviews.take(i as int)),
                crate::transaction::operations_view(ops@) == present_delete_ops(
                    m,
                    collection@,
                    distinct_sources(rowviews.take(i as int)),
                ),
            decreases rows@.len() - i,
        {
            proof {
                assert(rowviews.take(i + 1).drop_last() =~= rowviews.take(i as int));
                assert(rowviews.take(i + 1).last() == rowviews[i as int]);
            }
            let source = rows[i].source;
            let mut already = false;
            let mut k: usize = 0;
            while k < seen.len() && !already
                invariant
                    0 <= k <= seen@.len(),
                    already ==> exists|j: int| 0 <= j < seen@.len() && #[trigger] seen@[j] == source,
                    !already ==> forall|j: int| 0 <= j < k ==> #[trigger] seen@[j] != source,
                decreases seen@.len() - k, (if already {
                    0int
                } else {
                    1int
                }),
            {
                if seen[k] == source {
                    already = true;
                } else {
                    k += 1;
                }
            }
            let ghost seen_before = seen@;
            let ghost ops_before = ops@;
            if !already {
                assert(!seen@.contains(source));
                proof {
                    assert(distinct_sources(rowviews.take(i + 1)) == seen_before.push(source));
                    assert((seen_before.push(source)).drop_last() =~= seen_before);
                    assert((seen_before.push(source)).last() == source);
                }
                seen.push(source);
                match db.get(&collection, source) {
                    Ok(Some(doc)) => {
                        let header = doc.header;
                        proof {
                            assert(header@ == (crate::document::HeaderView {
                                id: source,
                                revision: m[source].revision,
                            }));
                        }
                        ops.push(Operation::delete(collection.duplicate(), header));
                        proof {
                            assert(crate::transaction::operations_view(ops@)
                                =~= crate::transaction::operations_view(ops_before).push(
                                ops@.last()@,
                            ));
                            assert(ops@.last()@ == (OperationView {
                                collection: collection@,
                                command: CommandView::Delete {
                                    header: crate::document::HeaderView {
                                        id: source,
                                        revision: m[source].revision,
                                    },
                                },
                            }));
                            assert(present_delete_ops(
                                m,
                                collection@,
                                seen_before.push(source),
                            ) == present_delete_ops(m, collection@, seen_before).push(
                                ops@.last()@,
                            ));
                        }
                    },
                    Ok(None) => {
                        proof {
                            assert(!m.contains_key(source));
                            assert(present_delete_ops(
                                m,
                                collection@,
                                seen_before.push(source),
                            ) == present_delete_ops(m, collection@, seen_before));
                        }
                    },
                    Err(_) => {
                        proof {
                            assert(false);
                        }
                    },
                }
            } else {
                proof {
                    assert(seen@.contains(source)) by {
                        let j = choose|j: int| 0 <= j < seen@.len() && seen@[j] == source;
                        assert(seen@[j] == source);
                    }
                    assert(distinct_sources(rowviews.take(i + 1)) == distinct_sources(
                        rowviews.take(i as int),
                    ));
                }
            }
            i += 1;
        }
        proof {
            assert(rowviews.take(rowviews.len() as int) =~= rowviews);
            assert(db.models() == old(db).models());
            assert(m == old(db).models()[collection_index(old(db).models(), self.name@.collection)].docs);
            assert(db.views@[vi as int].name@ == self.name@);
            assert(rowviews == query_spec(
                db.views@[vi as int].rows(),
                self.key,
                Sort::Ascending,
                None,
            ));
        }
        if ops.len() == 0 {
            proof {
                assert(present_delete_ops(m, self.name@.collection, distinct_sources(rowviews)).len()
                    == 0);
            }
            return Ok(0);
        }
        let transaction = Transaction { operations: ops };
        proof {
            assert(transaction@ == present_delete_ops(
                m,
                self.name@.collection,
                distinct_sources(rowviews),
            ));
        }
        let ghost pre_apply = *db;
        let step = db.apply_transaction(&transaction);
        match step {
            Ok(results) => {
                proof {
                    crate::store::lemma_committed_shape(models_before, transaction@);
                    // The delete transaction touches no view rows: the
                    // queried rows are still the view's rows afterwards.
                    assert(crate::store::view_after_txn(
                        db.views@[vi as int],
                        pre_apply.views@[vi as int],
                        crate::store::changes_of(crate::store::results_view(results@)),
                    ));
                    assert(db.views@[vi as int].entries == pre_apply.views@[vi as int].entries);
                    assert(db.views@[vi as int].rows() == pre_apply.views@[vi as int].rows());
                    assert(db.views@[vi as int].name@ == self.name@);
                    assert(results@.len() == transaction@.len());
                }
                Ok(results.len() as u64)
            },
            Err(e) => {
                proof {
                    // Nothing was applied: the store, the log and the
                    // queried view are as they stood before the commit
                    // attempt.
                    assert(*db == pre_apply);
                    assert(db.models() == old(db).models());
                    assert(db.log() == old(db).log());
                    assert(db.views@[vi as int].name@ == self.name@);
                    assert(rowviews == query_spec(
                        db.views@[vi as int].rows(),
                        self.key,
                        Sort::Ascending,
                        None,
                    ));
                    assert(db.transactions@.len() == old(db).transactions@.len());
                }
                Err(e)
            },
        }
    }
}

/// Whether a view named `name` is declared, over a declared collection.
pub open spec fn view_available(db: &Db, name: crate::names::ViewNameView) -> bool {
    exists|vi: int|
        0 <= vi < db.views@.len() && (#[trigger] db.views@[vi]).name@ == name && has_collection(
            db.models(),
            db.views@[vi].name@.collection,
        )
}

/// The index of the view named `name` in the database's view states.
pub fn find_view(db: &Db, name: &ViewName) -> (r: Option<usize>)
    requires
        db.wf(),
    ensures
        match r {
            Some(vi) => vi < db.views@.len() && db.views@[vi as int].name@ == name@
                && has_collection(db.models(), db.views@[vi as int].name@.collection),
            None => !view_available(db, name@),
        },
{
    let mut vi: usize = 0;
    while vi < db.views.len()
        invariant
            db.wf(),
            0 <= vi <= db.views@.len(),
            forall|j: int|
                0 <= j < vi ==> !((#[trigger] db.views@[j]).name@ == name@ && has_collection(
                    db.models(),
                    db.views@[j].name@.collection,
                )),
        decreases db.views@.len() - vi,
    {
        if db.views[vi].name.same_as(name) {
            let coll = db.views[vi].name.collection.duplicate();
            match db.collection_index_of(&coll) {
                Some(_) => {
                    return Some(vi);
                },
                None => {
                    proof {
                        assert forall|j: int|
                            0 <= j < db.views@.len() implies !((#[trigger] db.views@[j]).name@
                            == name@ && has_collection(
                            db.models(),
                            db.views@[j].name@.collection,
                        )) by {
                            if db.views@[j].name@ == name@ {
                                assert(db.views@[j].name@.collection == coll@);
                            }
                        }
                    }
                    return None;
                },
            }
        }
        vi += 1;
    }
    None
}


/// The mathematical values of a list of row-document pairs.
pub open spec fn row_doc_views(s: Seq<(ViewEntry, OwnedDocument)>) -> Seq<
    (crate::view::ViewEntryView, crate::document::DocumentView),
> {
    s.map_values(|p: (ViewEntry, OwnedDocument)| (p.0@, p.1@))
}

/// Each row paired with its source document, rows of deleted documents
/// silently skipped (a concurrent deleter may race the mapper).
pub open spec fn rows_with_docs(
    m: Map<u64, crate::store::DocRecord>,
    rows: Seq<crate::view::ViewEntryView>,
) -> Seq<(crate::view::ViewEntryView, crate::document::DocumentView)>
    decreases rows.len(),
{
    if rows.len() == 0 {
        Seq::empty()
    } else {
        let prev = rows_with_docs(m, rows.drop_last());
        if m.contains_key(rows.last().source) {
            prev.push(
                (rows.last(), crate::store::doc_view_of(rows.last().source, m[rows.last().source])),
            )
        } else {
            prev
        }
    }
}

/// The source documents of a row list, each once, in first-appearance
/// order.
pub open spec fn distinct_sources(rows: Seq<crate::view::ViewEntryView>) -> Seq<u64>
    decreases rows.len(),
{
    if rows.len() == 0 {
        Seq::empty()
    } else {
        let prev = distinct_sources(rows.drop_last());
        if prev.contains(rows.last().source) {
            prev
        } else {
            prev.push(rows.last().source)
        }
    }
}

/// One delete operation per present source document, under its current
/// revision; absent sources are skipped.
pub open spec fn present_delete_ops(
    m: Map<u64, crate::store::DocRecord>,
    collection: crate::names::CollectionNameView,
    sources: Seq<u64>,
) -> Seq<OperationView>
    decreases sources.len(),
{
    if sources.len() == 0 {
        Seq::empty()
    } else {
        let prev = present_delete_ops(m, collection, sources.drop_last());
        if m.contains_key(sources.last()) {
            prev.push(
                OperationView {
                    collection,
                    command: CommandView::Delete {
                        header: crate::document::HeaderView {
                            id: sources.last(),
                            revision: m[sources.last()].revision,
                        },
                    },
                },
            )
        } else {
            prev
        }
    }
}

} // verus!
