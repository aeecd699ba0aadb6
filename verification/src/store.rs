//! The document store and the transaction engine: per-collection
//! versioned document trees, atomic multi-operation transactions, and
//! the monotonically increasing transaction log.

use vstd::prelude::*;
use vstd::map::*;

use crate::document::{Header, HeaderView, OwnedDocument, Revision, RevisionView};
use crate::error::{AlreadyExists, AlreadyExistsView, Error, ErrorView, NotFound, NotFoundView};
use crate::names::{CollectionName, CollectionNameView};
use crate::transaction::{changed_documents_view, copy_bytes, Changes, ChangesView, ChangedDocument,
    ChangedDocumentView,
    Command, CommandView, Executed, ExecutedView, Operation, OperationView, OperationResult,
    OperationResultView, Transaction};
use crate::view::ViewState;

verus! {

/// One document as the store holds it.
#[derive(Debug)]
pub struct StoredDocument {
    /// The document's id, unique within its collection.
    pub id: u64,
    /// The document's current revision.
    pub revision: Revision,
    /// The document's contents.
    pub contents: Vec<u8>,
}

/// The mathematical value of a stored document.
pub struct StoredDocumentView {
    pub id: u64,
    pub revision: RevisionView,
    pub contents: Seq<u8>,
}

impl View for StoredDocument {
    type V = StoredDocumentView;

    open spec fn view(&self) -> StoredDocumentView {
        StoredDocumentView { id: self.id, revision: self.revision@, contents: self.contents@ }
    }
}

impl StoredDocument {
    /// An identical copy of this document.
    pub fn duplicate(&self) -> (r: Self)
        ensures
            r@ == self@,
    {
        StoredDocument {
            id: self.id,
            revision: self.revision.duplicate(),
            contents: copy_bytes(&self.contents),
        }
    }
}

/// The mathematical values of a list of stored documents.
pub open spec fn docs_view(ds: Seq<StoredDocument>) -> Seq<StoredDocumentView> {
    ds.map_values(|d: StoredDocument| d@)
}

/// What the store records for one document id.
pub struct DocRecord {
    pub revision: RevisionView,
    pub contents: Seq<u8>,
}

/// The record a stored document carries.
pub open spec fn record_of(d: StoredDocumentView) -> DocRecord {
    DocRecord { revision: d.revision, contents: d.contents }
}

/// The finite map from document id to record that a document list
/// denotes.
pub open spec fn docs_map(docs: Seq<StoredDocumentView>) -> Map<u64, DocRecord> {
    Map::new(
        |id: u64| exists|i: int| 0 <= i < docs.len() && (#[trigger] docs[i]).id == id,
        |id: u64|
            record_of(docs[choose|i: int| 0 <= i < docs.len() && (#[trigger] docs[i]).id == id]),
    )
}

/// Whether document ids are strictly increasing.
pub open spec fn ids_sorted(docs: Seq<StoredDocumentView>) -> bool {
    forall|i: int, j: int|
        0 <= i < j < docs.len() ==> (#[trigger] docs[i]).id < (#[trigger] docs[j]).id
}

/// A sorted document list holds each id at one index, so indexing and
/// the map view agree.
pub proof fn lemma_docs_map_index_pub(docs: Seq<StoredDocumentView>, i: int)
    requires
        ids_sorted(docs),
        0 <= i < docs.len(),
    ensures
        docs_map(docs).contains_key(docs[i].id),
        docs_map(docs)[docs[i].id] == record_of(docs[i]),
{
    lemma_docs_map_index(docs, i);
}

/// The index at which a sorted document list stores a present id.
pub proof fn lemma_docs_map_key_index(docs: Seq<StoredDocumentView>, d: u64) -> (j: int)
    requires
        ids_sorted(docs),
        docs_map(docs).contains_key(d),
    ensures
        0 <= j < docs.len(),
        docs[j].id == d,
{
    choose|j: int| 0 <= j < docs.len() && (#[trigger] docs[j]).id == d
}

/// A sorted document list holds each id at one index, so indexing and
/// the map view agree.
proof fn lemma_docs_map_index(docs: Seq<StoredDocumentView>, i: int)
    requires
        ids_sorted(docs),
        0 <= i < docs.len(),
    ensures
        docs_map(docs).contains_key(docs[i].id),
        docs_map(docs)[docs[i].id] == record_of(docs[i]),
    decreases docs.len(),
{
    let id = docs[i].id;
    assert(exists|k: int| 0 <= k < docs.len() && (#[trigger] docs[k]).id == id);
    let k = choose|k: int| 0 <= k < docs.len() && (#[trigger] docs[k]).id == id;
    if k < i {
        assert(docs[k].id < docs[i].id);
    } else if i < k {
        assert(docs[i].id < docs[k].id);
    }
}

/// An id that no document carries is absent from the map view.
proof fn lemma_docs_map_absent(docs: Seq<StoredDocumentView>, id: u64)
    requires
        forall|i: int| 0 <= i < docs.len() ==> (#[trigger] docs[i]).id != id,
    ensures
        !docs_map(docs).contains_key(id),
{
}

/// Inserting a document at its sorted position inserts its record into
/// the map view.
proof fn lemma_docs_map_insert(docs: Seq<StoredDocumentView>, pos: int, d: StoredDocumentView)
    requires
        ids_sorted(docs),
        0 <= pos <= docs.len(),
        forall|j: int| 0 <= j < pos ==> (#[trigger] docs[j]).id < d.id,
        forall|j: int| pos <= j < docs.len() ==> d.id < (#[trigger] docs[j]).id,
    ensures
        ids_sorted(docs.insert(pos, d)),
        docs_map(docs.insert(pos, d)) == docs_map(docs).insert(d.id, record_of(d)),
{
    let ins = docs.insert(pos, d);
    assert forall|a: int, b: int| 0 <= a < b < ins.len() implies (#[trigger] ins[a]).id < (
    #[trigger] ins[b]).id by {
        if a == pos {
            assert(ins[b] == docs[b - 1]);
        } else if b == pos {
            assert(ins[a] == docs[a]);
        } else if a < pos && b > pos {
            assert(ins[a] == docs[a] && ins[b] == docs[b - 1]);
            if a < b - 1 {
            } else {
                assert(docs[a].id < d.id && d.id < docs[b - 1].id);
            }
        } else if b < pos {
            assert(ins[a] == docs[a] && ins[b] == docs[b]);
        } else {
            assert(ins[a] == docs[a - 1] && ins[b] == docs[b - 1]);
        }
    }
    assert_maps_equal!(docs_map(ins), docs_map(docs).insert(d.id, record_of(d)), id => {
        if id == d.id {
            lemma_docs_map_index(ins, pos);
        } else {
            if exists|i: int| 0 <= i < docs.len() && (#[trigger] docs[i]).id == id {
                let i = choose|i: int| 0 <= i < docs.len() && (#[trigger] docs[i]).id == id;
                lemma_docs_map_index(docs, i);
                let i2 = if i < pos {
                    i
                } else {
                    i + 1
                };
                assert(ins[i2] == docs[i]);
                lemma_docs_map_index(ins, i2);
            } else {
                lemma_docs_map_absent(docs, id);
                assert forall|i: int| 0 <= i < ins.len() implies (#[trigger] ins[i]).id != id by {
                    if i < pos {
                        assert(ins[i] == docs[i]);
                    } else if i == pos {
                    } else {
                        assert(ins[i] == docs[i - 1]);
                    }
                }
                lemma_docs_map_absent(ins, id);
            }
        }
    });
}

/// Replacing a document in place updates its record in the map view,
/// provided the id is kept.
proof fn lemma_docs_map_update(docs: Seq<StoredDocumentView>, i: int, d: StoredDocumentView)
    requires
        ids_sorted(docs),
        0 <= i < docs.len(),
        d.id == docs[i].id,
    ensures
        ids_sorted(docs.update(i, d)),
        docs_map(docs.update(i, d)) == docs_map(docs).insert(d.id, record_of(d)),
{
    let upd = docs.update(i, d);
    assert forall|a: int, b: int| 0 <= a < b < upd.len() implies (#[trigger] upd[a]).id < (
    #[trigger] upd[b]).id by {
        assert(upd[a].id == docs[a].id && upd[b].id == docs[b].id);
    }
    assert_maps_equal!(docs_map(upd), docs_map(docs).insert(d.id, record_of(d)), id => {
        if id == d.id {
            lemma_docs_map_index(upd, i);
        } else {
            if exists|k: int| 0 <= k < docs.len() && (#[trigger] docs[k]).id == id {
                let k = choose|k: int| 0 <= k < docs.len() && (#[trigger] docs[k]).id == id;
                lemma_docs_map_index(docs, k);
                assert(upd[k] == docs[k]);
                lemma_docs_map_index(upd, k);
            } else {
                lemma_docs_map_absent(docs, id);
                assert forall|k: int| 0 <= k < upd.len() implies (#[trigger] upd[k]).id != id by {
                    assert(upd[k].id == docs[k].id);
                }
                lemma_docs_map_absent(upd, id);
            }
        }
    });
}

/// Removing a document removes its record from the map view.
pub proof fn lemma_docs_map_remove_pub(docs: Seq<StoredDocumentView>, i: int)
    requires
        ids_sorted(docs),
        0 <= i < docs.len(),
    ensures
        ids_sorted(docs.remove(i)),
        docs_map(docs.remove(i)) == docs_map(docs).remove(docs[i].id),
{
    lemma_docs_map_remove(docs, i);
}

/// Removing a document removes its record from the map view.
proof fn lemma_docs_map_remove(docs: Seq<StoredDocumentView>, i: int)
    requires
        ids_sorted(docs),
        0 <= i < docs.len(),
    ensures
        ids_sorted(docs.remove(i)),
        docs_map(docs.remove(i)) == docs_map(docs).remove(docs[i].id),
{
    let rem = docs.remove(i);
    assert forall|a: int, b: int| 0 <= a < b < rem.len() implies (#[trigger] rem[a]).id < (
    #[trigger] rem[b]).id by {
        let a2 = if a < i {
            a
        } else {
            a + 1
        };
        let b2 = if b < i {
            b
        } else {
            b + 1
        };
        assert(rem[a] == docs[a2] && rem[b] == docs[b2]);
    }
    assert_maps_equal!(docs_map(rem), docs_map(docs).remove(docs[i].id), id => {
        if id == docs[i].id {
            assert forall|k: int| 0 <= k < rem.len() implies (#[trigger] rem[k]).id != id by {
                let k2 = if k < i {
                    k
                } else {
                    k + 1
                };
                assert(rem[k] == docs[k2]);
                if k2 < i {
                    assert(docs[k2].id < docs[i].id);
                } else {
                    assert(docs[i].id < docs[k2].id);
                }
            }
            lemma_docs_map_absent(rem, id);
        } else {
            if exists|k: int| 0 <= k < docs.len() && (#[trigger] docs[k]).id == id {
                let k = choose|k: int| 0 <= k < docs.len() && (#[trigger] docs[k]).id == id;
                lemma_docs_map_index(docs, k);
                let k2 = if k < i {
                    k
                } else {
                    k - 1
                };
                assert(rem[k2] == docs[k]);
                lemma_docs_map_index(rem, k2);
            } else {
                lemma_docs_map_absent(docs, id);
                assert forall|k: int| 0 <= k < rem.len() implies (#[trigger] rem[k]).id != id by {
                    let k2 = if k < i {
                        k
                    } else {
                        k + 1
                    };
                    assert(rem[k] == docs[k2]);
                }
                lemma_docs_map_absent(rem, id);
            }
        }
    });
}

/// Adding to a counter, stopping at the largest representable value.
pub open spec fn sat_add_spec(a: u64, n: nat) -> u64 {
    if a + n <= u64::MAX {
        (a + n) as u64
    } else {
        u64::MAX as u64
    }
}

/// What one operation does to a collection: either the new collection
/// value together with the operation's result, or the error that makes
/// the whole transaction fail.
pub enum OpOutcome {
    Success { collection: CollectionModel, result: OperationResultView },
    Failure { error: ErrorView },
}

/// The outcome of an insert: a taken id fails, an absent one stores the
/// document under its first revision, an omitted one is allocated
/// strictly above every id ever used.
pub open spec fn insert_outcome(c: CollectionModel, id: Option<u64>, contents: Seq<u8>) -> OpOutcome {
    match id {
        Some(i) => {
            if c.docs.contains_key(i) {
                OpOutcome::Failure {
                    error: ErrorView::AlreadyExists(
                        AlreadyExistsView::Document { collection: c.name, id: i },
                    ),
                }
            } else {
                insert_success(c, i, contents)
            }
        },
        None => {
            if c.max_id == u64::MAX {
                OpOutcome::Failure { error: ErrorView::Internal }
            } else {
                insert_success(c, (c.max_id + 1) as u64, contents)
            }
        },
    }
}

/// The successful insert of a fresh id.
pub open spec fn insert_success(c: CollectionModel, i: u64, contents: Seq<u8>) -> OpOutcome {
    OpOutcome::Success {
        collection: CollectionModel {
            name: c.name,
            docs: c.docs.insert(
                i,
                DocRecord { revision: crate::document::first_revision(contents), contents },
            ),
            max_id: if i > c.max_id {
                i
            } else {
                c.max_id
            },
            wasted: c.wasted,
        },
        result: OperationResultView::DocumentUpdated {
            collection: c.name,
            header: HeaderView { id: i, revision: crate::document::first_revision(contents) },
        },
    }
}

/// The outcome of an update: the document must exist and the presented
/// revision must match the stored one; the write advances the revision
/// and leaves the overwritten bytes as reclaimable garbage.
pub open spec fn update_outcome(
    c: CollectionModel,
    header: HeaderView,
    contents: Seq<u8>,
) -> OpOutcome {
    if !c.docs.contains_key(header.id) {
        OpOutcome::Failure {
            error: ErrorView::NotFound(
                NotFoundView::Document { collection: c.name, id: header.id },
            ),
        }
    } else if c.docs[header.id].revision != header.revision {
        OpOutcome::Failure {
            error: ErrorView::Conflict { collection: c.name, id: header.id },
        }
    } else if header.revision.count == u32::MAX {
        OpOutcome::Failure { error: ErrorView::Internal }
    } else {
        let revision = crate::document::next_revision(header.revision, contents);
        OpOutcome::Success {
            collection: CollectionModel {
                name: c.name,
                docs: c.docs.insert(header.id, DocRecord { revision, contents }),
                max_id: c.max_id,
                wasted: sat_add_spec(c.wasted, c.docs[header.id].contents.len()),
            },
            result: OperationResultView::DocumentUpdated {
                collection: c.name,
                header: HeaderView { id: header.id, revision },
            },
        }
    }
}

/// The outcome of a delete: the document must exist and the presented
/// revision must match the stored one.
pub open spec fn delete_outcome(c: CollectionModel, header: HeaderView) -> OpOutcome {
    if !c.docs.contains_key(header.id) {
        OpOutcome::Failure {
            error: ErrorView::NotFound(
                NotFoundView::Document { collection: c.name, id: header.id },
            ),
        }
    } else if c.docs[header.id].revision != header.revision {
        OpOutcome::Failure {
            error: ErrorView::Conflict { collection: c.name, id: header.id },
        }
    } else {
        OpOutcome::Success {
            collection: CollectionModel {
                name: c.name,
                docs: c.docs.remove(header.id),
                max_id: c.max_id,
                wasted: sat_add_spec(c.wasted, c.docs[header.id].contents.len()),
            },
            result: OperationResultView::DocumentDeleted { collection: c.name, id: header.id },
        }
    }
}

/// What one operation does to the collection it targets.
pub open spec fn op_outcome(c: CollectionModel, op: OperationView) -> OpOutcome {
    match op.command {
        CommandView::Insert { id, contents } => insert_outcome(c, id, contents),
        CommandView::Update { header, contents } => update_outcome(c, header, contents),
        CommandView::Delete { header } => delete_outcome(c, header),
    }
}

/// A collection's document tree: documents in ascending id order, the
/// highest id ever used, and a count of reclaimable bytes.
#[derive(Debug)]
pub struct CollectionState {
    /// The collection's stable name.
    pub name: CollectionName,
    /// The stored documents, in ascending id order.
    pub documents: Vec<StoredDocument>,
    /// The highest id ever stored; ids are never reused.
    pub max_id: u64,
    /// Bytes reclaimable by compacting the collection's tree.
    pub wasted: u64,
}

/// The mathematical value of a collection: the map from id to record,
/// the allocation high-water mark, and the reclaimable byte count.
pub struct CollectionModel {
    pub name: CollectionNameView,
    pub docs: Map<u64, DocRecord>,
    pub max_id: u64,
    pub wasted: u64,
}

impl View for CollectionState {
    type V = CollectionModel;

    open spec fn view(&self) -> CollectionModel {
        CollectionModel {
            name: self.name@,
            docs: docs_map(docs_view(self.documents@)),
            max_id: self.max_id,
            wasted: self.wasted,
        }
    }
}

impl CollectionState {
    /// The stored documents as mathematical values.
    pub open spec fn doc_seq(&self) -> Seq<StoredDocumentView> {
        docs_view(self.documents@)
    }

    /// Well-formedness: ids strictly ascending and below the high-water
    /// mark.
    pub open spec fn wf(&self) -> bool {
        &&& ids_sorted(self.doc_seq())
        &&& forall|i: int|
            0 <= i < self.doc_seq().len() ==> (#[trigger] self.doc_seq()[i]).id <= self.max_id
    }

    /// An empty collection named `name`.
    pub fn new(name: CollectionName) -> (r: Self)
        ensures
            r.wf(),
            r@.name == name@,
            r@.docs == Map::<u64, DocRecord>::empty(),
            r@.max_id == 0,
            r@.wasted == 0,
    {
        let r = CollectionState { name, documents: Vec::new(), max_id: 0, wasted: 0 };
        proof {
            assert(r.doc_seq() =~= Seq::<StoredDocumentView>::empty());
            assert(docs_map(r.doc_seq()) =~= Map::<u64, DocRecord>::empty());
        }
        r
    }

    /// An identical copy of this collection.
    pub fn duplicate(&self) -> (r: Self)
        ensures
            r@ == self@,
            r.doc_seq() == self.doc_seq(),
            r.wf() == self.wf(),
    {
        let mut documents: Vec<StoredDocument> = Vec::new();
        let mut i: usize = 0;
        while i < self.documents.len()
            invariant
                0 <= i <= self.documents.len(),
                documents@.len() == i,
                forall|j: int| 0 <= j < i ==> #[trigger] documents@[j]@ == self.doc_seq()[j],
            decreases self.documents.len() - i,
        {
            documents.push(self.documents[i].duplicate());
            i += 1;
        }
        let r = CollectionState {
            name: self.name.duplicate(),
            documents,
            max_id: self.max_id,
            wasted: self.wasted,
        };
        proof {
            assert(r.doc_seq() =~= self.doc_seq());
        }
        r
    }

    /// The index at which the document with `id` is stored, if any.
    fn find_index(&self, id: u64) -> (r: Option<usize>)
        requires
            self.wf(),
        ensures
            match r {
                Some(i) => i < self.doc_seq().len() && self.doc_seq()[i as int].id == id
                    && self@.docs.contains_key(id) && self@.docs[id] == record_of(
                    self.doc_seq()[i as int],
                ),
                None => !self@.docs.contains_key(id),
            },
    {
        let mut i: usize = 0;
        while i < self.documents.len()
            invariant
                self.wf(),
                0 <= i <= self.documents.len(),
                forall|j: int| 0 <= j < i ==> (#[trigger] self.doc_seq()[j]).id != id,
            decreases self.documents.len() - i,
        {
            if self.documents[i].id == id {
                proof {
                    lemma_docs_map_index(self.doc_seq(), i as int);
                }
                return Some(i);
            }
            i += 1;
        }
        proof {
            lemma_docs_map_absent(self.doc_seq(), id);
        }
        None
    }

    /// Applies one operation to this collection, exactly as the
    /// mathematical outcome describes: all-or-nothing, with the error
    /// the outcome names.
    pub fn apply_operation(&mut self, op: &Operation) -> (r: Result<OperationResult, Error>)
        requires
            old(self).wf(),
            op@.collection == old(self)@.name,
        ensures
            final(self).wf(),
            final(self)@.name == old(self)@.name,
            match r {
                Ok(res) => op_outcome(old(self)@, op@) matches OpOutcome::Success {
                    collection,
                    result,
                } && res@ == result && final(self)@ == collection,
                Err(e) => op_outcome(old(self)@, op@) matches OpOutcome::Failure { error } && e@
                    == error && *final(self) == *old(self),
            },
    {
        match &op.command {
            Command::Insert { id, contents } => {
                let doc_id: u64 = match id {
                    Some(i) => *i,
                    None => {
                        if self.max_id == u64::MAX {
                            return Err(Error::Internal);
                        }
                        self.max_id + 1
                    },
                };
                let mut pos: usize = 0;
                while pos < self.documents.len() && self.documents[pos].id < doc_id
                    invariant
                        self.wf(),
                        *self == *old(self),
                        0 <= pos <= self.documents.len(),
                        forall|j: int| 0 <= j < pos ==> (#[trigger] self.doc_seq()[j]).id < doc_id,
                    decreases self.documents.len() - pos,
                {
                    pos += 1;
                }
                if pos < self.documents.len() && self.documents[pos].id == doc_id {
                    proof {
                        lemma_docs_map_index(self.doc_seq(), pos as int);
                    }
                    return Err(
                        Error::AlreadyExists(
                            AlreadyExists::Document {
                                collection: self.name.duplicate(),
                                id: doc_id,
                            },
                        ),
                    );
                }
                assert forall|j: int|
                    pos <= j < self.doc_seq().len() implies doc_id < (
                #[trigger] self.doc_seq()[j]).id by {
                    if *id is None {
                        assert(doc_id == self.max_id + 1);
                        assert(self.doc_seq()[j].id <= self.max_id);
                    } else {
                        assert(pos < self.documents.len());
                        assert(self.doc_seq()[pos as int].id == self.documents@[pos as int].id);
                        assert(self.documents@[pos as int].id >= doc_id);
                        assert(self.documents@[pos as int].id != doc_id);
                        if j > pos {
                            assert(self.doc_seq()[pos as int].id < self.doc_seq()[j].id);
                        }
                    }
                }
                if id.is_none() {
                    proof {
                        lemma_docs_map_absent(self.doc_seq(), doc_id);
                    }
                }
                let revision = Revision::new(contents.as_slice());
                let header = Header { id: doc_id, revision: revision.duplicate() };
                let ghost docs_before = self.doc_seq();
                let new_doc = StoredDocument {
                    id: doc_id,
                    revision,
                    contents: copy_bytes(contents),
                };
                let ghost new_doc_view = new_doc@;
                self.documents.insert(pos, new_doc);
                if doc_id > self.max_id {
                    self.max_id = doc_id;
                }
                proof {
                    assert(self.doc_seq() =~= docs_before.insert(pos as int, new_doc_view));
                    lemma_docs_map_insert(docs_before, pos as int, new_doc_view);
                    assert forall|j: int|
                        0 <= j < self.doc_seq().len() implies (#[trigger] self.doc_seq()[j]).id
                        <= self.max_id by {
                        if j != pos {
                            let j2 = if j < pos {
                                j
                            } else {
                                j - 1
                            };
                            assert(self.doc_seq()[j] == docs_before[j2]);
                        }
                    }
                }
                Ok(OperationResult::DocumentUpdated { collection: self.name.duplicate(), header })
            },
            Command::Update { header, contents } => {
                match self.find_index(header.id) {
                    Some(i) => {
                        if !self.documents[i].revision.matches(&header.revision) {
                            return Err(
                                Error::Conflict {
                                    collection: self.name.duplicate(),
                                    id: header.id,
                                },
                            );
                        }
                        let new_revision = match header.revision.next(contents.as_slice()) {
                            Ok(rev) => rev,
                            Err(e) => {
                                return Err(e);
                            },
                        };
                        let ghost docs_before = self.doc_seq();
                        let old_len = self.documents[i].contents.len();
                        let new_header = Header { id: header.id, revision: new_revision.duplicate() };
                        let new_doc = StoredDocument {
                            id: header.id,
                            revision: new_revision,
                            contents: copy_bytes(contents),
                        };
                        let ghost new_doc_view = new_doc@;
                        self.documents.set(i, new_doc);
                        self.wasted = crate::view::saturating_add(self.wasted, old_len as u64);
                        proof {
                            assert(self.doc_seq() =~= docs_before.update(i as int, new_doc_view));
                            lemma_docs_map_update(docs_before, i as int, new_doc_view);
                            assert forall|j: int|
                                0 <= j < self.doc_seq().len() implies (
                            #[trigger] self.doc_seq()[j]).id <= self.max_id by {
                                assert(self.doc_seq()[j].id == docs_before[j].id);
                            }
                        }
                        Ok(
                            OperationResult::DocumentUpdated {
                                collection: self.name.duplicate(),
                                header: new_header,
                            },
                        )
                    },
                    None => Err(
                        Error::NotFound(
                            NotFound::Document { collection: self.name.duplicate(), id: header.id },
                        ),
                    ),
                }
            },
            Command::Delete { header } => {
                match self.find_index(header.id) {
                    Some(i) => {
                        if !self.documents[i].revision.matches(&header.revision) {
                            return Err(
                                Error::Conflict {
                                    collection: self.name.duplicate(),
                                    id: header.id,
                                },
                            );
                        }
                        let ghost docs_before = self.doc_seq();
                        let old_len = self.documents[i].contents.len();
                        self.documents.remove(i);
                        self.wasted = crate::view::saturating_add(self.wasted, old_len as u64);
                        proof {
                            assert(self.doc_seq() =~= docs_before.remove(i as int));
                            lemma_docs_map_remove(docs_before, i as int);
                            assert forall|j: int|
                                0 <= j < self.doc_seq().len() implies (
                            #[trigger] self.doc_seq()[j]).id <= self.max_id by {
                                let j2 = if j < i {
                                    j
                                } else {
                                    j + 1
                                };
                                assert(self.doc_seq()[j] == docs_before[j2]);
                            }
                        }
                        Ok(
                            OperationResult::DocumentDeleted {
                                collection: self.name.duplicate(),
                                id: header.id,
                            },
                        )
                    },
                    None => Err(
                        Error::NotFound(
                            NotFound::Document { collection: self.name.duplicate(), id: header.id },
                        ),
                    ),
                }
            },
        }
    }

    /// Retrieves the document with `id` without copying, as an index
    /// into the stored list.
    fn get_stored(&self, id: u64) -> (r: Option<&StoredDocument>)
        requires
            self.wf(),
        ensures
            match r {
                Some(doc) => self@.docs.contains_key(id) && doc@.id == id && doc@.revision
                    == self@.docs[id].revision && doc@.contents == self@.docs[id].contents,
                None => !self@.docs.contains_key(id),
            },
    {
        match self.find_index(id) {
            Some(i) => Some(&self.documents[i]),
            None => None,
        }
    }

    /// Retrieves the document with `id`, or `None` when the collection
    /// holds none.
    pub fn get(&self, id: u64) -> (r: Option<OwnedDocument>)
        requires
            self.wf(),
        ensures
            match r {
                Some(doc) => self@.docs.contains_key(id) && doc@.header.id == id
                    && doc@.header.revision == self@.docs[id].revision && doc@.contents
                    == self@.docs[id].contents,
                None => !self@.docs.contains_key(id),
            },
    {
        match self.find_index(id) {
            Some(i) => {
                let d = &self.documents[i];
                Some(
                    OwnedDocument {
                        header: Header { id: d.id, revision: d.revision.duplicate() },
                        contents: copy_bytes(&d.contents),
                    },
                )
            },
            None => None,
        }
    }
}


/// The mathematical values of a list of collections.
pub open spec fn models(cs: Seq<CollectionState>) -> Seq<CollectionModel> {
    cs.map_values(|c: CollectionState| c@)
}

/// The mathematical values of a list of operation results.
pub open spec fn results_view(rs: Seq<OperationResult>) -> Seq<OperationResultView> {
    rs.map_values(|r: OperationResult| r@)
}

/// The mathematical values of a list of log records.
pub open spec fn executed_view(es: Seq<Executed>) -> Seq<ExecutedView> {
    es.map_values(|e: Executed| e@)
}

/// Whether some collection in the list carries name `n`.
pub open spec fn has_collection(ms: Seq<CollectionModel>, n: CollectionNameView) -> bool {
    exists|i: int| 0 <= i < ms.len() && (#[trigger] ms[i]).name == n
}

/// The index of the collection named `n`.
pub open spec fn collection_index(ms: Seq<CollectionModel>, n: CollectionNameView) -> int {
    choose|i: int| 0 <= i < ms.len() && (#[trigger] ms[i]).name == n
}

/// With distinct collection names, the index of a name is the one
/// position that carries it.
pub(crate) proof fn lemma_collection_index(ms: Seq<CollectionModel>, i: int)
    requires
        0 <= i < ms.len(),
        forall|a: int, b: int|
            0 <= a < b < ms.len() ==> (#[trigger] ms[a]).name != (#[trigger] ms[b]).name,
    ensures
        has_collection(ms, ms[i].name),
        collection_index(ms, ms[i].name) == i,
{
    let n = ms[i].name;
    if !has_collection(ms, n) {
        assert(ms[i].name != n);
        assert(false);
    }
    let k = collection_index(ms, n);
    if k < i {
        assert(ms[k].name != ms[i].name);
        assert(false);
    } else if i < k {
        assert(ms[i].name != ms[k].name);
        assert(false);
    }
}

/// What applying a list of operations yields: either every collection's
/// new value plus the per-operation results, or the first error, in
/// which case nothing is applied.
pub enum TxnOutcome {
    Committed { collections: Seq<CollectionModel>, results: Seq<OperationResultView> },
    Failed { error: ErrorView },
}

/// Applies the operations in order; the first failing operation makes
/// the whole transaction fail with its error.
pub open spec fn apply_ops(ms: Seq<CollectionModel>, ops: Seq<OperationView>) -> TxnOutcome
    decreases ops.len(),
{
    if ops.len() == 0 {
        TxnOutcome::Committed { collections: ms, results: Seq::empty() }
    } else {
        match apply_ops(ms, ops.drop_last()) {
            TxnOutcome::Committed { collections, results } => {
                let op = ops.last();
                if !has_collection(collections, op.collection) {
                    TxnOutcome::Failed {
                        error: ErrorView::NotFound(
                            NotFoundView::Collection { collection: op.collection },
                        ),
                    }
                } else {
                    let ci = collection_index(collections, op.collection);
                    match op_outcome(collections[ci], op) {
                        OpOutcome::Success { collection, result } => TxnOutcome::Committed {
                            collections: collections.update(ci, collection),
                            results: results.push(result),
                        },
                        OpOutcome::Failure { error } => TxnOutcome::Failed { error },
                    }
                }
            },
            TxnOutcome::Failed { error } => TxnOutcome::Failed { error },
        }
    }
}

/// Once a prefix of the operations fails, the whole list fails with the
/// same error.
proof fn lemma_failed_persists(ms: Seq<CollectionModel>, ops: Seq<OperationView>, i: int)
    requires
        0 <= i <= ops.len(),
        apply_ops(ms, ops.take(i)) is Failed,
    ensures
        apply_ops(ms, ops) == apply_ops(ms, ops.take(i)),
    decreases ops.len() - i,
{
    if i == ops.len() {
        assert(ops.take(i) =~= ops);
    } else {
        assert(ops.take(i + 1).drop_last() =~= ops.take(i));
        assert(apply_ops(ms, ops.take(i + 1)) == apply_ops(ms, ops.take(i)));
        lemma_failed_persists(ms, ops, i + 1);
    }
}

/// The change record one operation result denotes.
pub open spec fn change_of_result(r: OperationResultView) -> ChangedDocumentView {
    match r {
        OperationResultView::DocumentUpdated { collection, header } => ChangedDocumentView {
            collection,
            id: header.id,
            deleted: false,
        },
        OperationResultView::DocumentDeleted { collection, id } => ChangedDocumentView {
            collection,
            id,
            deleted: true,
        },
        OperationResultView::Success => ChangedDocumentView {
            collection: CollectionNameView { authority: Seq::empty(), name: Seq::empty() },
            id: 0,
            deleted: false,
        },
    }
}

/// The change list a transaction's results denote.
pub open spec fn changes_of(rs: Seq<OperationResultView>) -> Seq<ChangedDocumentView> {
    rs.map_values(|r: OperationResultView| change_of_result(r))
}

/// Folds a transaction's change list into a view's stale set: every
/// changed document of the view's collection is marked, once.
pub open spec fn fold_invalidations(
    inv: Seq<u64>,
    changes: Seq<ChangedDocumentView>,
    coll: CollectionNameView,
) -> Seq<u64>
    decreases changes.len(),
{
    if changes.len() == 0 {
        inv
    } else {
        let prev = fold_invalidations(inv, changes.drop_last(), coll);
        if changes.last().collection == coll {
            crate::view::add_invalidation(prev, changes.last().id)
        } else {
            prev
        }
    }
}

/// Whether the log can still take one more record.
pub open spec fn log_is_full(len: nat) -> bool {
    len + 1 > usize::MAX || len + 1 > u64::MAX
}

/// How a committed transaction leaves one view: every changed document
/// of the view's collection marked stale, and the index untouched.
pub open spec fn view_after_txn(
    now: ViewState,
    before: ViewState,
    changes: Seq<ChangedDocumentView>,
) -> bool {
    &&& now.invalidated@ == fold_invalidations(before.invalidated@, changes, before.name@.collection)
    &&& now.entries == before.entries
    &&& now.document_map == before.document_map
    &&& now.name == before.name
    &&& now.version == before.version
}

/// A mutable reference to one element of a vector.
pub(crate) fn element_mut<T>(v: &mut Vec<T>, i: usize) -> (element: &mut T)
    requires
        0 <= i < old(v).len(),
    ensures
        *element == old(v)@[i as int],
        final(v)@ == old(v)@.update(i as int, *final(element)),
{
    &mut v[i]
}

/// One database: a name, the document tree of every declared
/// collection, the state of every declared view, and the transaction
/// log.
#[derive(Debug)]
pub struct Database {
    /// The database's name.
    pub name: String,
    /// One document tree per declared collection.
    pub collections: Vec<CollectionState>,
    /// One state per declared view.
    pub views: Vec<ViewState>,
    /// The log of committed transactions, ids contiguous from 1.
    pub transactions: Vec<Executed>,
    /// Bytes reclaimable by compacting the key/value tree.
    pub kv_wasted: u64,
}

impl Database {
    /// The collections as mathematical values.
    pub open spec fn models(&self) -> Seq<CollectionModel> {
        models(self.collections@)
    }

    /// The log as mathematical values.
    pub open spec fn log(&self) -> Seq<ExecutedView> {
        executed_view(self.transactions@)
    }

    /// Well-formedness: every collection and view is well-formed,
    /// collection names are distinct, and log ids are contiguous from 1.
    pub open spec fn wf(&self) -> bool {
        &&& forall|i: int|
            0 <= i < self.collections@.len() ==> (#[trigger] self.collections@[i]).wf()
        &&& forall|a: int, b: int|
            0 <= a < b < self.models().len() ==> (#[trigger] self.models()[a]).name != (
            #[trigger] self.models()[b]).name
        &&& forall|i: int| 0 <= i < self.log().len() ==> (#[trigger] self.log()[i]).id == i + 1
        &&& forall|i: int| 0 <= i < self.views@.len() ==> (#[trigger] self.views@[i]).wf()
    }

    /// Applies a transaction: all operations succeed and become visible
    /// together with a fresh, contiguous log id, every view over a
    /// changed collection has the changed documents marked stale -- or
    /// the first failure is returned and nothing changes at all.
    pub fn apply_transaction(&mut self, transaction: &Transaction) -> (r: Result<
        Vec<OperationResult>,
        Error,
    >)
        requires
            old(self).wf(),
        ensures
            final(self).wf(),
            final(self).name == old(self).name,
            match r {
                Ok(results) => {
                    &&& !log_is_full(old(self).transactions@.len())
                    &&& apply_ops(old(self).models(), transaction@) == (TxnOutcome::Committed {
                        collections: final(self).models(),
                        results: results_view(results@),
                    })
                    &&& final(self).log() == old(self).log().push(
                        ExecutedView {
                            id: (old(self).log().len() + 1) as u64,
                            changes: ChangesView::Documents(changes_of(results_view(results@))),
                        },
                    )
                    &&& final(self).views@.len() == old(self).views@.len()
                    &&& forall|vi: int|
                        0 <= vi < final(self).views@.len() ==> view_after_txn(
                            #[trigger] final(self).views@[vi],
                            old(self).views@[vi],
                            changes_of(results_view(results@)),
                        )
                    &&& final(self).kv_wasted == old(self).kv_wasted
                },
                Err(e) => {
                    &&& *final(self) == *old(self)
                    &&& if log_is_full(old(self).transactions@.len()) {
                        e@ == ErrorView::Internal
                    } else {
                        apply_ops(old(self).models(), transaction@) == (TxnOutcome::Failed {
                            error: e@,
                        })
                    }
                },
            },
    {
        // A committed transaction needs a fresh, contiguous id.
        if self.transactions.len() == usize::MAX {
            return Err(Error::Internal);
        }
        let next_id: u64 = (self.transactions.len() + 1) as u64;
        let ghost old_models = self.models();
        let ghost tv = transaction@;
        // Stage: work on a copy of every collection, so that a failing
        // operation leaves the store untouched.
        let mut staged: Vec<CollectionState> = Vec::new();
        let mut si: usize = 0;
        while si < self.collections.len()
            invariant
                0 <= si <= self.collections@.len(),
                *self == *old(self),
                old(self).wf(),
                staged@.len() == si,
                forall|j: int| 0 <= j < si ==> #[trigger] staged@[j]@ == self.collections@[j]@,
                forall|j: int| 0 <= j < si ==> (#[trigger] staged@[j]).wf(),
            decreases self.collections@.len() - si,
        {
            staged.push(self.collections[si].duplicate());
            si += 1;
        }
        proof {
            assert(models(staged@) =~= old_models);
            assert(tv.take(0) =~= Seq::<OperationView>::empty());
        }
        let mut results: Vec<OperationResult> = Vec::new();
        proof {
            assert(results_view(results@) =~= Seq::<OperationResultView>::empty());
        }
        let mut oi: usize = 0;
        while oi < transaction.operations.len()
            invariant
                0 <= oi <= transaction.operations@.len(),
                *self == *old(self),
                old(self).wf(),
                !log_is_full(old(self).transactions@.len()),
                old_models == old(self).models(),
                tv == transaction@,
                staged@.len() == old(self).collections@.len(),
                forall|j: int| 0 <= j < staged@.len() ==> (#[trigger] staged@[j]).wf(),
                forall|j: int|
                    0 <= j < staged@.len() ==> (#[trigger] models(staged@)[j]).name
                        == old_models[j].name,
                apply_ops(old_models, tv.take(oi as int)) == (TxnOutcome::Committed {
                    collections: models(staged@),
                    results: results_view(results@),
                }),
            decreases transaction.operations@.len() - oi,
        {
            let op = &transaction.operations[oi];
            proof {
                assert(tv.take(oi + 1).drop_last() =~= tv.take(oi as int));
                assert(tv.take(oi + 1).last() == tv[oi as int]);
                assert(tv[oi as int] == op@);
                assert forall|a: int, b: int|
                    0 <= a < b < models(staged@).len() implies (#[trigger] models(staged@)[a]).name
                    != (#[trigger] models(staged@)[b]).name by {
                    assert(models(staged@)[a].name == old_models[a].name);
                    assert(models(staged@)[b].name == old_models[b].name);
                }
            }
            // Locate the collection the operation targets.
            let mut ci: usize = 0;
            let mut found = false;
            while ci < staged.len() && !found
                invariant
                    0 <= ci <= staged@.len(),
                    found ==> ci < staged@.len() && models(staged@)[ci as int].name
                        == op@.collection,
                    !found ==> forall|j: int|
                        0 <= j < ci ==> (#[trigger] models(staged@)[j]).name != op@.collection,
                    op == &transaction.operations@[oi as int],
                    oi < transaction.operations@.len(),
                decreases staged@.len() - ci, (if found {
                    0int
                } else {
                    1int
                }),
            {
                if staged[ci].name.same_as(&op.collection) {
                    found = true;
                } else {
                    ci += 1;
                }
            }
            if !found {
                proof {
                    assert(!has_collection(models(staged@), op@.collection));
                    assert(apply_ops(old_models, tv.take(oi + 1)) == (TxnOutcome::Failed {
                        error: ErrorView::NotFound(
                            NotFoundView::Collection { collection: op@.collection },
                        ),
                    }));
                    lemma_failed_persists(old_models, tv, oi + 1);
                    assert(tv.take(tv.len() as int) =~= tv);
                }
                return Err(
                    Error::NotFound(NotFound::Collection { collection: op.collection.duplicate() }),
                );
            }
            proof {
                lemma_collection_index(models(staged@), ci as int);
            }
            let ghost staged_before = staged@;
            let target = element_mut(&mut staged, ci);
            let step = target.apply_operation(op);
            proof {
                assert(models(staged@) =~= models(staged_before).update(ci as int, staged@[ci as int]@));
            }
            match step {
                Ok(res) => {
                    let ghost resv = res@;
                    let ghost results_before = results@;
                    results.push(res);
                    proof {
                        assert(results_view(results@) =~= results_view(results_before).push(resv));
                        assert(apply_ops(old_models, tv.take(oi + 1)) == (TxnOutcome::Committed {
                            collections: models(staged@),
                            results: results_view(results@),
                        }));
                    }
                },
                Err(e) => {
                    proof {
                        assert(apply_ops(old_models, tv.take(oi + 1)) == (TxnOutcome::Failed {
                            error: e@,
                        }));
                        lemma_failed_persists(old_models, tv, oi + 1);
                        assert(tv.take(tv.len() as int) =~= tv);
                    }
                    return Err(e);
                },
            }
            oi += 1;
        }
        proof {
            assert(tv.take(tv.len() as int) =~= tv);
        }
        // Commit point: build the change list, install the staged
        // collections, append the log record, and invalidate views.
        let mut changed: Vec<ChangedDocument> = Vec::new();
        let mut k: usize = 0;
        proof {
            assert(results_view(results@).take(0) =~= Seq::<OperationResultView>::empty());
            assert(changed_documents_view(changed@) =~= changes_of(
                results_view(results@).take(0),
            ));
        }
        while k < results.len()
            invariant
                0 <= k <= results@.len(),
                changed_documents_view(changed@) == changes_of(results_view(results@).take(k as int)),
            decreases results@.len() - k,
        {
            proof {
                assert(results_view(results@).take(k + 1) =~= results_view(results@).take(
                    k as int,
                ).push(results_view(results@)[k as int]));
            }
            let c = match &results[k] {
                OperationResult::DocumentUpdated { collection, header } => ChangedDocument {
                    collection: collection.duplicate(),
                    id: header.id,
                    deleted: false,
                },
                OperationResult::DocumentDeleted { collection, id } => ChangedDocument {
                    collection: collection.duplicate(),
                    id: *id,
                    deleted: true,
                },
                OperationResult::Success => {
                    proof {
                        reveal_strlit("");
                        assert(""@ =~= Seq::<char>::empty());
                    }
                    ChangedDocument { collection: CollectionName::new("", ""), id: 0, deleted: false }
                },
            };
            let ghost cv = c@;
            changed.push(c);
            proof {
                assert(results_view(results@)[k as int] == results@[k as int]@);
                assert(cv == change_of_result(results_view(results@)[k as int]));
                assert(changed_documents_view(changed@) =~= changes_of(
                    results_view(results@).take(k as int),
                ).push(cv));
                assert(changes_of(results_view(results@).take(k + 1)) =~= changes_of(
                    results_view(results@).take(k as int),
                ).push(cv));
            }
            k += 1;
        }
        proof {
            assert(results_view(results@).take(results_view(results@).len() as int) =~= results_view(
                results@,
            ));
        }
        let ghost chv = changes_of(results_view(results@));
        self.collections = staged;
        let ghost committed = self.collections@;
        proof {
            assert(models(committed) =~= models(staged@));
        }
        // Mark every changed document stale in every view over its
        // collection.
        let mut vi: usize = 0;
        while vi < self.views.len()
            invariant
                0 <= vi <= self.views@.len(),
                self.views@.len() == old(self).views@.len(),
                self.name == old(self).name,
                self.transactions == old(self).transactions,
                self.kv_wasted == old(self).kv_wasted,
                self.collections@ == committed,
                chv == changed_documents_view(changed@),
                forall|w: int|
                    0 <= w < vi ==> view_after_txn(
                        #[trigger] self.views@[w],
                        old(self).views@[w],
                        chv,
                    ),
                forall|w: int| vi <= w < self.views@.len() ==> #[trigger] self.views@[w] == old(self).views@[w],
                forall|w: int| 0 <= w < self.views@.len() ==> (#[trigger] self.views@[w]).wf(),
            decreases self.views@.len() - vi,
        {
            let mut kk: usize = 0;
            let ghost inv_start = self.views@[vi as int].invalidated@;
            let ghost view_start = self.views@[vi as int];
            while kk < changed.len()
                invariant
                    0 <= kk <= changed@.len(),
                    vi < self.views@.len(),
                    self.views@.len() == old(self).views@.len(),
                    self.name == old(self).name,
                    self.transactions == old(self).transactions,
                    self.kv_wasted == old(self).kv_wasted,
                    self.collections@ == committed,
                    chv == changed_documents_view(changed@),
                    view_start == old(self).views@[vi as int],
                    forall|w: int|
                        0 <= w < vi ==> view_after_txn(
                            #[trigger] self.views@[w],
                            old(self).views@[w],
                            chv,
                        ),
                    forall|w: int|
                        vi < w < self.views@.len() ==> #[trigger] self.views@[w] == old(self).views@[w],
                    forall|w: int| 0 <= w < self.views@.len() ==> (#[trigger] self.views@[w]).wf(),
                    self.views@[vi as int].invalidated@ == fold_invalidations(
                        view_start.invalidated@,
                        chv.take(kk as int),
                        view_start.name@.collection,
                    ),
                    self.views@[vi as int].entries == view_start.entries,
                    self.views@[vi as int].document_map == view_start.document_map,
                    self.views@[vi as int].name == view_start.name,
                    self.views@[vi as int].version == view_start.version,
                decreases changed@.len() - kk,
            {
                proof {
                    assert(chv.take(kk + 1).drop_last() =~= chv.take(kk as int));
                    assert(chv.take(kk + 1).last() == chv[kk as int]);
                    assert(chv[kk as int] == changed@[kk as int]@);
                }
                let doc_id = changed[kk].id;
                let same = self.views[vi].name.collection.same_as(&changed[kk].collection);
                if same {
                    let ghost views_before = self.views@;
                    let view_ref = element_mut(&mut self.views, vi);
                    view_ref.invalidate(doc_id);
                    proof {
                        assert(self.views@ == views_before.update(vi as int, self.views@[vi as int]));
                        assert(chv[kk as int].collection == view_start.name@.collection);
                        assert(chv[kk as int].id == doc_id);
                    }
                } else {
                    proof {
                        assert(chv[kk as int].collection != view_start.name@.collection);
                    }
                }
                kk += 1;
            }
            proof {
                assert(chv.take(chv.len() as int) =~= chv);
            }
            vi += 1;
        }
        self.transactions.push(
            Executed { id: next_id, changes: Changes::Documents(changed) },
        );
        proof {
            assert(self.log() =~= old(self).log().push(self.log().last()));
            assert(self.log().last() == (ExecutedView {
                id: next_id,
                changes: ChangesView::Documents(chv),
            }));
            assert forall|i: int| 0 <= i < self.log().len() implies (#[trigger] self.log()[i]).id
                == i + 1 by {
                if i < self.log().len() - 1 {
                    assert(self.log()[i] == old(self).log()[i]);
                }
            }
        }
        Ok(results)
    }
}


/// Whether `id` falls inside the id range `r`.
pub open spec fn id_in_range(id: u64, r: crate::key::Range<u64>) -> bool {
    &&& match r.start {
        crate::key::Bound::Unbounded => true,
        crate::key::Bound::Included(s) => s <= id,
        crate::key::Bound::Excluded(s) => s < id,
    }
    &&& match r.end {
        crate::key::Bound::Unbounded => true,
        crate::key::Bound::Included(e) => id <= e,
        crate::key::Bound::Excluded(e) => id < e,
    }
}

/// The predicate selecting the stored documents with ids in `r`.
pub open spec fn doc_in_range(r: crate::key::Range<u64>) -> spec_fn(StoredDocumentView) -> bool {
    |d: StoredDocumentView| id_in_range(d.id, r)
}

/// The document value a stored record denotes.
pub open spec fn doc_view_of(id: u64, rec: DocRecord) -> crate::document::DocumentView {
    crate::document::DocumentView {
        header: HeaderView { id, revision: rec.revision },
        contents: rec.contents,
    }
}

/// The documents a multi-get returns: each requested id that is
/// present, in request order, missing ids silently skipped.
pub open spec fn multi_get(m: Map<u64, DocRecord>, ids: Seq<u64>) -> Seq<
    crate::document::DocumentView,
>
    decreases ids.len(),
{
    if ids.len() == 0 {
        Seq::empty()
    } else {
        let prev = multi_get(m, ids.drop_last());
        if m.contains_key(ids.last()) {
            prev.push(doc_view_of(ids.last(), m[ids.last()]))
        } else {
            prev
        }
    }
}

/// The mathematical values of a list of read documents.
pub open spec fn read_docs_view(ds: Seq<OwnedDocument>) -> Seq<crate::document::DocumentView> {
    ds.map_values(|d: OwnedDocument| d@)
}

/// The documents of a stored list, as read documents.
pub open spec fn stored_as_read(ds: Seq<StoredDocumentView>) -> Seq<crate::document::DocumentView> {
    ds.map_values(|d: StoredDocumentView| doc_view_of(d.id, record_of(d)))
}

/// The filtered form of a one-element sequence.
proof fn lemma_filter_singleton_doc(d: StoredDocumentView, pred: spec_fn(StoredDocumentView) -> bool)
    ensures
        pred(d) ==> seq![d].filter(pred) == seq![d],
        !pred(d) ==> seq![d].filter(pred) == Seq::<StoredDocumentView>::empty(),
{
    reveal_with_fuel(Seq::filter, 2);
    assert(seq![d].drop_last() =~= Seq::<StoredDocumentView>::empty());
}

/// The number of results a list query returns under `limit`.
pub open spec fn clipped(len: nat, limit: Option<usize>) -> int {
    match limit {
        None => len as int,
        Some(l) => if l < len {
            l as int
        } else {
            len as int
        },
    }
}

/// What a list query returns: the documents with ids in the range, in
/// the requested order, truncated to the limit.
pub open spec fn list_spec(
    docs: Seq<StoredDocumentView>,
    range: crate::key::Range<u64>,
    order: crate::key::Sort,
    limit: Option<usize>,
) -> Seq<crate::document::DocumentView> {
    let matching = docs.filter(doc_in_range(range));
    let ordered = match order {
        crate::key::Sort::Ascending => matching,
        crate::key::Sort::Descending => matching.reverse(),
    };
    stored_as_read(ordered.take(clipped(ordered.len(), limit)))
}

impl Database {
    /// A fresh, empty database under the schematic's declarations: one
    /// empty collection per declared collection, one empty view state
    /// per declared view, and an empty transaction log.
    pub fn new(name: &str, schematic: &crate::schema::Schematic) -> (r: Self)
        requires
            schematic.wf(),
        ensures
            r.wf(),
            r.name@ == name@,
            r.models().len() == schematic.collections_view().len(),
            forall|i: int|
                0 <= i < r.models().len() ==> {
                    &&& (#[trigger] r.models()[i]).name == schematic.collections_view()[i]
                    &&& r.models()[i].docs == Map::<u64, DocRecord>::empty()
                    &&& r.models()[i].max_id == 0
                },
            r.views@.len() == schematic.views_view().len(),
            forall|i: int|
                0 <= i < r.views@.len() ==> {
                    &&& (#[trigger] r.views@[i]).name@ == schematic.views_view()[i].name
                    &&& r.views@[i].version == schematic.views_view()[i].version
                    &&& r.views@[i].rows() == Seq::<crate::view::ViewEntryView>::empty()
                    &&& r.views@[i].invalidated@ == Seq::<u64>::empty()
                },
            r.log() == Seq::<ExecutedView>::empty(),
    {
        let mut collections: Vec<CollectionState> = Vec::new();
        let mut i: usize = 0;
        while i < schematic.collections.len()
            invariant
                schematic.wf(),
                0 <= i <= schematic.collections@.len(),
                collections@.len() == i,
                forall|j: int| 0 <= j < i ==> (#[trigger] collections@[j]).wf(),
                forall|j: int|
                    0 <= j < i ==> {
                        &&& (#[trigger] collections@[j])@.name == schematic.collections_view()[j]
                        &&& collections@[j]@.docs == Map::<u64, DocRecord>::empty()
                        &&& collections@[j]@.max_id == 0
                    },
            decreases schematic.collections@.len() - i,
        {
            collections.push(CollectionState::new(schematic.collections[i].duplicate()));
            i += 1;
        }
        let mut views: Vec<ViewState> = Vec::new();
        let mut v: usize = 0;
        while v < schematic.views.len()
            invariant
                schematic.wf(),
                0 <= v <= schematic.views@.len(),
                views@.len() == v,
                forall|j: int| 0 <= j < v ==> (#[trigger] views@[j]).wf(),
                forall|j: int|
                    0 <= j < v ==> {
                        &&& (#[trigger] views@[j]).name@ == schematic.views_view()[j].name
                        &&& views@[j].version == schematic.views_view()[j].version
                        &&& views@[j].rows() == Seq::<crate::view::ViewEntryView>::empty()
                        &&& views@[j].invalidated@ == Seq::<u64>::empty()
                    },
            decreases schematic.views@.len() - v,
        {
            let decl = &schematic.views[v];
            views.push(ViewState::new(decl.name.duplicate(), decl.version));
            v += 1;
        }
        let r = Database {
            name: name.to_owned(),
            collections,
            views,
            transactions: Vec::new(),
            kv_wasted: 0,
        };
        proof {
            assert(r.log() =~= Seq::<ExecutedView>::empty());
            assert forall|j: int|
                0 <= j < r.models().len() implies {
                &&& (#[trigger] r.models()[j]).name == schematic.collections_view()[j]
                &&& r.models()[j].docs == Map::<u64, DocRecord>::empty()
                &&& r.models()[j].max_id == 0
            } by {
                assert(r.models()[j] == r.collections@[j]@);
            }
            assert forall|a: int, b: int|
                0 <= a < b < r.models().len() implies (#[trigger] r.models()[a]).name != (
            #[trigger] r.models()[b]).name by {
                assert(r.models()[a].name == schematic.collections_view()[a]);
                assert(r.models()[b].name == schematic.collections_view()[b]);
            }
        }
        r
    }

    /// The index of the collection named `name`, if the schema declares
    /// it.
    pub fn collection_index_of(&self, name: &CollectionName) -> (r: Option<usize>)
        requires
            self.wf(),
        ensures
            match r {
                Some(i) => i < self.models().len() && self.models()[i as int].name == name@
                    && has_collection(self.models(), name@) && collection_index(
                    self.models(),
                    name@,
                ) == i,
                None => !has_collection(self.models(), name@),
            },
    {
        let mut i: usize = 0;
        while i < self.collections.len()
            invariant
                self.wf(),
                0 <= i <= self.collections@.len(),
                forall|j: int| 0 <= j < i ==> (#[trigger] self.models()[j]).name != name@,
            decreases self.collections@.len() - i,
        {
            if self.collections[i].name.same_as(name) {
                proof {
                    lemma_collection_index(self.models(), i as int);
                }
                return Some(i);
            }
            i += 1;
        }
        None
    }

    /// Retrieves the document with `id` from `collection`: `Ok(None)`
    /// when the collection holds no such document, an error only when
    /// the collection itself is not declared.
    pub fn get(&self, collection: &CollectionName, id: u64) -> (r: Result<
        Option<OwnedDocument>,
        Error,
    >)
        requires
            self.wf(),
        ensures
            match r {
                Ok(found) => has_collection(self.models(), collection@) && {
                    let m = self.models()[collection_index(self.models(), collection@)].docs;
                    match found {
                        Some(doc) => m.contains_key(id) && doc@ == doc_view_of(id, m[id]),
                        None => !m.contains_key(id),
                    }
                },
                Err(e) => !has_collection(self.models(), collection@) && e@ == ErrorView::NotFound(
                    NotFoundView::Collection { collection: collection@ },
                ),
            },
    {
        match self.collection_index_of(collection) {
            Some(ci) => Ok(self.collections[ci].get(id)),
            None => Err(
                Error::NotFound(NotFound::Collection { collection: collection.duplicate() }),
            ),
        }
    }

    /// Retrieves the documents matching `ids` from `collection`, in
    /// request order; ids that are not found are silently skipped.
    pub fn get_multiple(&self, collection: &CollectionName, ids: &Vec<u64>) -> (r: Result<
        Vec<OwnedDocument>,
        Error,
    >)
        requires
            self.wf(),
        ensures
            match r {
                Ok(docs) => has_collection(self.models(), collection@) && read_docs_view(docs@)
                    == multi_get(
                    self.models()[collection_index(self.models(), collection@)].docs,
                    ids@,
                ),
                Err(e) => !has_collection(self.models(), collection@) && e@ == ErrorView::NotFound(
                    NotFoundView::Collection { collection: collection@ },
                ),
            },
    {
        let ci = match self.collection_index_of(collection) {
            Some(ci) => ci,
            None => {
                return Err(
                    Error::NotFound(NotFound::Collection { collection: collection.duplicate() }),
                );
            },
        };
        let ghost m = self.models()[ci as int].docs;
        let mut out: Vec<OwnedDocument> = Vec::new();
        let mut i: usize = 0;
        proof {
            assert(ids@.take(0) =~= Seq::<u64>::empty());
            assert(read_docs_view(out@) =~= multi_get(m, ids@.take(0)));
        }
        while i < ids.len()
            invariant
                self.wf(),
                0 <= i <= ids@.len(),
                ci < self.collections@.len(),
                m == self.models()[ci as int].docs,
                read_docs_view(out@) == multi_get(m, ids@.take(i as int)),
            decreases ids@.len() - i,
        {
            proof {
                assert(ids@.take(i + 1).drop_last() =~= ids@.take(i as int));
                assert(ids@.take(i + 1).last() == ids@[i as int]);
            }
            let ghost out_before = out@;
            match self.collections[ci].get(ids[i]) {
                Some(doc) => {
                    out.push(doc);
                    proof {
                        assert(read_docs_view(out@) =~= read_docs_view(out_before).push(
                            out@.last()@,
                        ));
                    }
                },
                None => {},
            }
            i += 1;
        }
        proof {
            assert(ids@.take(ids@.len() as int) =~= ids@);
        }
        Ok(out)
    }

    /// Lists the documents of `collection` whose ids fall in `ids`, in
    /// the requested order, up to `limit` of them.
    pub fn list(
        &self,
        collection: &CollectionName,
        ids: crate::key::Range<u64>,
        order: crate::key::Sort,
        limit: Option<usize>,
    ) -> (r: Result<Vec<OwnedDocument>, Error>)
        requires
            self.wf(),
        ensures
            match r {
                Ok(docs) => has_collection(self.models(), collection@) && read_docs_view(docs@)
                    == list_spec(
                    self.collections@[collection_index(self.models(), collection@)].doc_seq(),
                    ids,
                    order,
                    limit,
                ),
                Err(e) => !has_collection(self.models(), collection@) && e@ == ErrorView::NotFound(
                    NotFoundView::Collection { collection: collection@ },
                ),
            },
    {
        let ci = match self.collection_index_of(collection) {
            Some(ci) => ci,
            None => {
                return Err(
                    Error::NotFound(NotFound::Collection { collection: collection.duplicate() }),
                );
            },
        };
        let coll = &self.collections[ci];
        let ghost pred = doc_in_range(ids);
        let ghost dseq = coll.doc_seq();
        // Collect the matching documents in stored (ascending id) order.
        let mut matching: Vec<OwnedDocument> = Vec::new();
        let mut i: usize = 0;
        proof {
            assert(dseq.take(0) =~= Seq::<StoredDocumentView>::empty());
            assert(read_docs_view(matching@) =~= stored_as_read(dseq.take(0).filter(pred)));
        }
        while i < coll.documents.len()
            invariant
                0 <= i <= coll.documents@.len(),
                coll == &self.collections@[ci as int],
                dseq == coll.doc_seq(),
                pred == doc_in_range(ids),
                read_docs_view(matching@) == stored_as_read(dseq.take(i as int).filter(pred)),
            decreases coll.documents@.len() - i,
        {
            proof {
                assert(dseq.take(i + 1) =~= dseq.take(i as int) + seq![dseq[i as int]]);
                Seq::filter_distributes_over_add(dseq.take(i as int), seq![dseq[i as int]], pred);
                lemma_filter_singleton_doc(dseq[i as int], pred);
            }
            let d = &coll.documents[i];
            let in_start = match &ids.start {
                crate::key::Bound::Unbounded => true,
                crate::key::Bound::Included(st) => *st <= d.id,
                crate::key::Bound::Excluded(st) => *st < d.id,
            };
            let in_end = match &ids.end {
                crate::key::Bound::Unbounded => true,
                crate::key::Bound::Included(en) => d.id <= *en,
                crate::key::Bound::Excluded(en) => d.id < *en,
            };
            let ghost matching_before = matching@;
            if in_start && in_end {
                assert(pred(dseq[i as int]));
                matching.push(
                    OwnedDocument {
                        header: Header { id: d.id, revision: d.revision.duplicate() },
                        contents: copy_bytes(&d.contents),
                    },
                );
                proof {
                    assert(read_docs_view(matching@) =~= read_docs_view(matching_before).push(
                        matching@.last()@,
                    ));
                    assert(stored_as_read(dseq.take(i + 1).filter(pred)) =~= stored_as_read(
                        dseq.take(i as int).filter(pred),
                    ).push(doc_view_of(dseq[i as int].id, record_of(dseq[i as int]))));
                }
            } else {
                assert(!pred(dseq[i as int]));
                proof {
                    assert(dseq.take(i + 1).filter(pred) =~= dseq.take(i as int).filter(pred));
                }
            }
            i += 1;
        }
        proof {
            assert(dseq.take(dseq.len() as int) =~= dseq);
        }
        // Order and truncate.
        let mut ordered: Vec<OwnedDocument> = matching;
        match order {
            crate::key::Sort::Ascending => {},
            crate::key::Sort::Descending => {
                let ghost asc = ordered@;
                let mut reversed: Vec<OwnedDocument> = Vec::new();
                let mut k: usize = ordered.len();
                while k > 0
                    invariant
                        0 <= k <= asc.len(),
                        ordered@ == asc,
                        reversed@.len() == asc.len() - k,
                        forall|j: int|
                            0 <= j < reversed@.len() ==> #[trigger] reversed@[j]@ == asc[asc.len()
                                - 1 - j]@,
                    decreases k,
                {
                    k -= 1;
                    reversed.push(ordered[k].duplicate());
                }
                proof {
                    assert(read_docs_view(reversed@) =~= stored_as_read(
                        dseq.filter(pred).reverse(),
                    )) by {
                        assert forall|j: int|
                            0 <= j < reversed@.len() implies read_docs_view(reversed@)[j]
                            == stored_as_read(dseq.filter(pred).reverse())[j] by {
                            assert(reversed@[j]@ == asc[asc.len() - 1 - j]@);
                            assert(read_docs_view(asc)[asc.len() - 1 - j] == asc[asc.len() - 1
                                - j]@);
                        }
                    }
                }
                ordered = reversed;
            },
        }
        let keep_len: usize = match limit {
            Some(l) => {
                if l < ordered.len() {
                    l
                } else {
                    ordered.len()
                }
            },
            None => ordered.len(),
        };
        let mut out: Vec<OwnedDocument> = Vec::new();
        let mut t: usize = 0;
        while t < keep_len
            invariant
                0 <= t <= keep_len <= ordered@.len(),
                out@.len() == t,
                forall|j: int| 0 <= j < t ==> #[trigger] out@[j]@ == ordered@[j]@,
            decreases keep_len - t,
        {
            out.push(ordered[t].duplicate());
            t += 1;
        }
        proof {
            let matching_s = dseq.filter(pred);
            let ordered_s = match order {
                crate::key::Sort::Ascending => matching_s,
                crate::key::Sort::Descending => matching_s.reverse(),
            };
            assert(read_docs_view(ordered@) == stored_as_read(ordered_s));
            assert(read_docs_view(out@) =~= stored_as_read(
                ordered_s.take(clipped(ordered_s.len(), limit)),
            )) by {
                assert forall|j: int|
                    0 <= j < out@.len() implies read_docs_view(out@)[j] == stored_as_read(
                    ordered_s.take(clipped(ordered_s.len(), limit)),
                )[j] by {
                    assert(out@[j]@ == ordered@[j]@);
                    assert(read_docs_view(ordered@)[j] == ordered@[j]@);
                }
            }
        }
        Ok(out)
    }

    /// The id of the most recently committed transaction, if any.
    pub fn last_transaction_id(&self) -> (r: Option<u64>)
        requires
            self.wf(),
        ensures
            match r {
                Some(id) => self.log().len() > 0 && id == self.log().last().id && id
                    == self.log().len(),
                None => self.log().len() == 0,
            },
    {
        if self.transactions.len() == 0 {
            None
        } else {
            Some(self.transactions[self.transactions.len() - 1].id)
        }
    }

    /// Lists committed transactions beginning at `starting_id` (from
    /// the start when absent), at most `result_limit` of them, with a
    /// default of 1000 and a hard cap of 100000. Ids in the result are
    /// strictly increasing.
    pub fn list_executed_transactions(
        &self,
        starting_id: Option<u64>,
        result_limit: Option<usize>,
    ) -> (r: Vec<Executed>)
        requires
            self.wf(),
        ensures
            executed_view(r@) == txn_window(self.log(), starting_id, result_limit),
            forall|a: int, b: int|
                0 <= a < b < r@.len() ==> (#[trigger] r@[a]@).id < (#[trigger] r@[b]@).id,
    {
        let start: usize = match starting_id {
            None => 0,
            Some(s) => {
                if s <= 1 {
                    0
                } else if s - 1 <= self.transactions.len() as u64 {
                    (s - 1) as usize
                } else {
                    self.transactions.len()
                }
            },
        };
        let cap: usize = match result_limit {
            None => 1000,
            Some(l) => {
                if l > 100000 {
                    100000
                } else {
                    l
                }
            },
        };
        let remaining = self.transactions.len() - start;
        let count: usize = if cap < remaining {
            cap
        } else {
            remaining
        };
        let end: usize = start + count;
        let mut out: Vec<Executed> = Vec::new();
        let mut pos: usize = start;
        proof {
            assert(executed_view(out@) =~= self.log().skip(start as int).take(0));
        }
        while pos < end
            invariant
                self.wf(),
                start <= pos <= end,
                end <= self.transactions.len(),
                end == start + count,
                out@.len() == pos - start,
                executed_view(out@) == self.log().skip(start as int).take(pos - start),
            decreases end - pos,
        {
            let ghost out_before = out@;
            out.push(self.transactions[pos].duplicate());
            proof {
                assert(executed_view(out@) =~= executed_view(out_before).push(out@.last()@));
                assert(self.log().skip(start as int).take(pos - start + 1) =~= self.log().skip(
                    start as int,
                ).take(pos - start).push(self.log()[pos as int]));
            }
            pos += 1;
        }
        proof {
            assert(executed_view(out@) =~= txn_window(self.log(), starting_id, result_limit));
            assert forall|a: int, b: int|
                0 <= a < b < out@.len() implies (#[trigger] out@[a]@).id < (
            #[trigger] out@[b]@).id by {
                assert(executed_view(out@)[a] == out@[a]@);
                assert(executed_view(out@)[b] == out@[b]@);
                assert(out@[a]@ == self.log()[start + a]);
                assert(out@[b]@ == self.log()[start + b]);
            }
        }
        out
    }
}

/// The window of the log a transaction listing returns.
pub open spec fn txn_window(
    log: Seq<ExecutedView>,
    starting_id: Option<u64>,
    result_limit: Option<usize>,
) -> Seq<ExecutedView> {
    let start: int = match starting_id {
        None => 0,
        Some(s) => if s <= 1 {
            0
        } else if s - 1 <= log.len() {
            s - 1
        } else {
            log.len() as int
        },
    };
    let cap: int = match result_limit {
        None => 1000,
        Some(l) => if l > 100000 {
            100000
        } else {
            l as int
        },
    };
    let count: int = if cap < log.len() - start {
        cap
    } else {
        log.len() - start
    };
    log.skip(start).take(count)
}


/// The id an operation result names.
pub open spec fn result_id(r: OperationResultView) -> u64 {
    match r {
        OperationResultView::DocumentUpdated { header, .. } => header.id,
        OperationResultView::DocumentDeleted { id, .. } => id,
        OperationResultView::Success => 0,
    }
}

/// The contents an operation writes, when it writes any.
pub open spec fn written_contents(op: OperationView) -> Option<Seq<u8>> {
    match op.command {
        CommandView::Insert { contents, .. } => Some(contents),
        CommandView::Update { contents, .. } => Some(contents),
        CommandView::Delete { .. } => None,
    }
}

/// Whether the collection list carries pairwise distinct names.
pub open spec fn names_distinct(ms: Seq<CollectionModel>) -> bool {
    forall|a: int, b: int|
        0 <= a < b < ms.len() ==> (#[trigger] ms[a]).name != (#[trigger] ms[b]).name
}

/// A committed run yields one result per operation and keeps the
/// collection list's length and names.
pub proof fn lemma_committed_shape(ms: Seq<CollectionModel>, ops: Seq<OperationView>)
    requires
        apply_ops(ms, ops) is Committed,
    ensures
        apply_ops(ms, ops) matches TxnOutcome::Committed { collections, results } && {
            &&& results.len() == ops.len()
            &&& collections.len() == ms.len()
            &&& forall|i: int|
                0 <= i < ms.len() ==> (#[trigger] collections[i]).name == ms[i].name
        },
    decreases ops.len(),
{
    if ops.len() > 0 {
        lemma_committed_shape(ms, ops.drop_last());
    }
}

/// What a successful operation does to its collection, seen from the
/// outside: the named document's record, and nothing else.
proof fn lemma_op_outcome_frame(c: CollectionModel, op: OperationView)
    requires
        op_outcome(c, op) is Success,
    ensures
        op_outcome(c, op) matches OpOutcome::Success { collection, result } && {
            &&& collection.name == c.name
            &&& (!(op.command is Delete) ==> (result matches OperationResultView::DocumentUpdated {
                header,
                ..
            } && collection.docs.contains_key(header.id) && collection.docs[header.id].contents
                == written_contents(op).unwrap() && collection.docs[header.id].revision
                == header.revision && result_id(result) == header.id))
            &&& (op.command is Delete ==> result is DocumentDeleted && !collection.docs.contains_key(
                result_id(result),
            ))
            &&& forall|d: u64|
                d != result_id(result) ==> #[trigger] collection.docs.contains_key(d)
                    == c.docs.contains_key(d) && (collection.docs.contains_key(d)
                    ==> collection.docs[d] == c.docs[d])
        },
{
}

/// LAW: for every committed transaction, a subsequent read of each
/// document the transaction wrote returns exactly the contents and
/// revision the transaction's result reported -- as long as no later
/// operation of the same transaction touched the same document.
pub proof fn lemma_committed_write_visible(
    ms: Seq<CollectionModel>,
    ops: Seq<OperationView>,
    i: int,
)
    requires
        names_distinct(ms),
        0 <= i < ops.len(),
        !((#[trigger] ops[i]).command is Delete),
        apply_ops(ms, ops) matches TxnOutcome::Committed { collections, results } && (forall|j: int|
            i < j < ops.len() ==> !(ops[j].collection == ops[i].collection && result_id(
                #[trigger] results[j],
            ) == result_id(results[i]))),
    ensures
        apply_ops(ms, ops) matches TxnOutcome::Committed { collections, results } && {
            let c = ops[i].collection;
            let ci = collection_index(collections, c);
            &&& has_collection(collections, c)
            &&& results[i] matches OperationResultView::DocumentUpdated { header, .. } && {
                &&& collections[ci].docs.contains_key(header.id)
                &&& collections[ci].docs[header.id].contents == written_contents(ops[i]).unwrap()
                &&& collections[ci].docs[header.id].revision == header.revision
            }
        },
    decreases ops.len(),
{
    let whole = apply_ops(ms, ops);
    let prefix = apply_ops(ms, ops.drop_last());
    lemma_committed_shape(ms, ops.drop_last());
    lemma_committed_shape(ms, ops);
    let pre_colls = prefix->Committed_collections;
    let pre_results = prefix->Committed_results;
    let colls = whole->Committed_collections;
    let results = whole->Committed_results;
    assert(names_distinct(pre_colls));
    assert(names_distinct(colls));
    let op = ops.last();
    let ci_last = collection_index(pre_colls, op.collection);
    assert(has_collection(pre_colls, op.collection));
    assert(op_outcome(pre_colls[ci_last], op) is Success);
    lemma_op_outcome_frame(pre_colls[ci_last], op);
    let stepped = op_outcome(pre_colls[ci_last], op)->Success_collection;
    let step_result = op_outcome(pre_colls[ci_last], op)->Success_result;
    assert(colls == pre_colls.update(ci_last, stepped));
    assert(results == pre_results.push(step_result));
    if i == ops.len() - 1 {
        // The operation under scrutiny is the last one: its own step
        // wrote the document.
        lemma_collection_index(colls, ci_last);
        assert(collection_index(colls, op.collection) == ci_last);
        assert(results[i] == step_result);
    } else {
        // The write happened in the prefix and the last operation does
        // not touch the written document.
        assert forall|j: int|
            i < j < ops.drop_last().len() implies !(ops.drop_last()[j].collection
            == ops.drop_last()[i].collection && result_id(#[trigger] pre_results[j]) == result_id(
            pre_results[i])) by {
            assert(pre_results[j] == results[j]);
            assert(pre_results[i] == results[i]);
            assert(ops.drop_last()[j] == ops[j]);
            assert(ops.drop_last()[i] == ops[i]);
            assert(!(ops[j].collection == ops[i].collection && result_id(results[j]) == result_id(
                results[i],
            )));
        }
        lemma_committed_write_visible(ms, ops.drop_last(), i);
        let c = ops[i].collection;
        let ci = collection_index(pre_colls, c);
        lemma_collection_index(pre_colls, ci);
        assert(results[i] == pre_results[i]);
        let header_i = pre_results[i]->DocumentUpdated_header;
        if op.collection == c {
            lemma_collection_index(colls, ci_last);
            assert(ci_last == ci);
            assert(result_id(results[ops.len() - 1]) == result_id(step_result));
            assert(result_id(step_result) != result_id(results[i]));
            assert(colls[ci].docs.contains_key(header_i.id));
            assert(colls[ci].docs[header_i.id] == pre_colls[ci].docs[header_i.id]);
            assert(collection_index(colls, c) == ci);
        } else {
            assert(pre_colls[ci].name == c);
            assert(pre_colls[ci_last].name == op.collection);
            assert(ci != ci_last);
            assert(colls[ci] == pre_colls[ci]);
            lemma_collection_index(colls, ci);
            assert(collection_index(colls, c) == ci);
        }
    }
}

/// A committed run of explicit-id inserts only grows each collection's
/// document map: a document present before stays present, unchanged in
/// name terms.
proof fn lemma_inserts_preserve_presence(
    ms: Seq<CollectionModel>,
    ops: Seq<OperationView>,
    c: CollectionNameView,
    id: u64,
)
    requires
        names_distinct(ms),
        forall|j: int|
            0 <= j < ops.len() ==> (#[trigger] ops[j]).command matches CommandView::Insert {
                id: Some(_),
                ..
            },
        apply_ops(ms, ops) is Committed,
        has_collection(ms, c),
        ms[collection_index(ms, c)].docs.contains_key(id),
    ensures
        apply_ops(ms, ops) matches TxnOutcome::Committed { collections, results } && {
            &&& has_collection(collections, c)
            &&& collections[collection_index(collections, c)].docs.contains_key(id)
        },
    decreases ops.len(),
{
    lemma_committed_shape(ms, ops);
    if ops.len() == 0 {
    } else {
        lemma_inserts_preserve_presence(ms, ops.drop_last(), c, id);
        lemma_committed_shape(ms, ops.drop_last());
        let prefix = apply_ops(ms, ops.drop_last());
        let pre_colls = prefix->Committed_collections;
        assert(names_distinct(pre_colls));
        let op = ops.last();
        let ci_last = collection_index(pre_colls, op.collection);
        let ci = collection_index(pre_colls, c);
        lemma_collection_index(pre_colls, ci);
        let stepped = op_outcome(pre_colls[ci_last], op)->Success_collection;
        let colls = apply_ops(ms, ops)->Committed_collections;
        assert(colls == pre_colls.update(ci_last, stepped));
        assert(op.command matches CommandView::Insert { id: Some(_), .. });
        if ci_last == ci {
            assert(stepped.docs.contains_key(id)) by {
                let new_id = op.command->Insert_id->0;
                assert(stepped.docs == pre_colls[ci].docs.insert(
                    new_id,
                    DocRecord {
                        revision: crate::document::first_revision(op.command->Insert_contents),
                        contents: op.command->Insert_contents,
                    },
                ));
            }
            assert(stepped.name == c);
            lemma_collection_index(colls, ci);
        } else {
            assert(colls[ci] == pre_colls[ci]);
            lemma_collection_index(colls, ci);
        }
    }
}

/// LAW: applying the same transaction twice is prevented by id
/// uniqueness. A committed transaction of explicit-id inserts cannot
/// commit a second time from the state it produced: its replay fails.
pub proof fn lemma_replay_prevented(ms: Seq<CollectionModel>, ops: Seq<OperationView>)
    requires
        names_distinct(ms),
        ops.len() > 0,
        forall|j: int|
            0 <= j < ops.len() ==> (#[trigger] ops[j]).command matches CommandView::Insert {
                id: Some(_),
                ..
            },
        apply_ops(ms, ops) is Committed,
    ensures
        apply_ops(ms, ops) matches TxnOutcome::Committed { collections, .. } && apply_ops(
            collections,
            ops,
        ) is Failed,
{
    let last = ops.len() - 1;
    lemma_committed_shape(ms, ops);
    let colls = apply_ops(ms, ops)->Committed_collections;
    let results = apply_ops(ms, ops)->Committed_results;
    assert(names_distinct(colls));
    // The last insert's document is present in the committed state.
    assert(!(ops[last].command is Delete));
    lemma_committed_write_visible(ms, ops, last);
    let c = ops[last].collection;
    let id = results[last]->DocumentUpdated_header.id;
    assert(colls[collection_index(colls, c)].docs.contains_key(id));
    // The replayed inserts' explicit ids: the last one is `id` itself.
    assert(result_id(results[last]) == id);
    let prefix = apply_ops(ms, ops.drop_last());
    let pre_colls = prefix->Committed_collections;
    let ci_last = collection_index(pre_colls, ops[last].collection);
    lemma_op_outcome_frame(pre_colls[ci_last], ops[last]);
    assert(ops[last].command->Insert_id == Some(id)) by {
        assert(op_outcome(pre_colls[ci_last], ops[last]) is Success);
    }
    // Replay: the prefix either fails outright, or keeps the document,
    // and then the last insert collides.
    if apply_ops(colls, ops.drop_last()) is Failed {
        assert(ops.drop_last() =~= ops.take(last));
        lemma_failed_persists(colls, ops, last);
    } else {
        lemma_inserts_preserve_presence(colls, ops.drop_last(), c, id);
        lemma_committed_shape(colls, ops.drop_last());
        let re_pre = apply_ops(colls, ops.drop_last())->Committed_collections;
        assert(names_distinct(re_pre));
        let rci = collection_index(re_pre, c);
        assert(re_pre[rci].docs.contains_key(id));
        assert(op_outcome(re_pre[rci], ops[last]) matches OpOutcome::Failure { error }
            && error == ErrorView::AlreadyExists(
            AlreadyExistsView::Document { collection: re_pre[rci].name, id },
        ));
        assert(apply_ops(colls, ops) is Failed);
    }
}

/// LAW: transaction ids in the log are contiguous starting from 1, and
/// hence strictly increasing in commit order.
pub proof fn lemma_log_monotonic(db: &Database)
    requires
        db.wf(),
    ensures
        forall|i: int| 0 <= i < db.log().len() ==> (#[trigger] db.log()[i]).id == i + 1,
        forall|a: int, b: int|
            0 <= a < b < db.log().len() ==> (#[trigger] db.log()[a]).id < (
            #[trigger] db.log()[b]).id,
{
    assert forall|a: int, b: int|
        0 <= a < b < db.log().len() implies (#[trigger] db.log()[a]).id < (
    #[trigger] db.log()[b]).id by {
        assert(db.log()[a].id == a + 1);
        assert(db.log()[b].id == b + 1);
    }
}


/// Each result of a committed run names its operation's collection, and
/// its change record carries that collection and the result's id.
pub(crate) proof fn lemma_results_name_their_ops(ms: Seq<CollectionModel>, ops: Seq<OperationView>)
    requires
        names_distinct(ms),
        apply_ops(ms, ops) is Committed,
    ensures
        apply_ops(ms, ops) matches TxnOutcome::Committed { collections, results } && forall|j: int|
            0 <= j < ops.len() ==> {
                &&& change_of_result(#[trigger] results[j]).collection == ops[j].collection
                &&& change_of_result(results[j]).id == result_id(results[j])
                &&& !(results[j] is Success)
            },
    decreases ops.len(),
{
    lemma_committed_shape(ms, ops);
    if ops.len() > 0 {
        lemma_results_name_their_ops(ms, ops.drop_last());
        lemma_committed_shape(ms, ops.drop_last());
        let prefix = apply_ops(ms, ops.drop_last());
        let pre_results = prefix->Committed_results;
        let pre_colls = prefix->Committed_collections;
        let results = apply_ops(ms, ops)->Committed_results;
        let op = ops.last();
        let ci = collection_index(pre_colls, op.collection);
        lemma_op_outcome_frame(pre_colls[ci], op);
        let step_result = op_outcome(pre_colls[ci], op)->Success_result;
        assert(results == pre_results.push(step_result));
        assert forall|j: int| 0 <= j < ops.len() implies {
            &&& change_of_result(#[trigger] results[j]).collection == ops[j].collection
            &&& change_of_result(results[j]).id == result_id(results[j])
            &&& !(results[j] is Success)
        } by {
            if j < ops.len() - 1 {
                assert(results[j] == pre_results[j]);
                assert(ops.drop_last()[j] == ops[j]);
            } else {
                assert(results[j] == step_result);
                assert(pre_colls[ci].name == op.collection);
                match op.command {
                    CommandView::Insert { id, contents } => {},
                    CommandView::Update { header, contents } => {},
                    CommandView::Delete { header } => {},
                }
            }
        }
    }
}

/// LAW: a committed transaction leaves every document it does not list
/// untouched -- its change list covers everything it wrote. This is
/// what lets a read after later, unrelated transactions still return
/// what an earlier transaction wrote.
pub proof fn lemma_unlisted_docs_unchanged(ms: Seq<CollectionModel>, ops: Seq<OperationView>)
    requires
        names_distinct(ms),
        apply_ops(ms, ops) is Committed,
    ensures
        apply_ops(ms, ops) matches TxnOutcome::Committed { collections, results } && forall|
            ci: int,
            d: u64,
        |
            0 <= ci < ms.len() && !(exists|j: int|
                0 <= j < ops.len() && (#[trigger] ops[j]).collection == ms[ci].name && result_id(
                    results[j],
                ) == d) ==> {
                &&& (#[trigger] collections[ci].docs.contains_key(d)) == ms[ci].docs.contains_key(
                    d,
                )
                &&& (collections[ci].docs.contains_key(d) ==> collections[ci].docs[d]
                    == ms[ci].docs[d])
            },
    decreases ops.len(),
{
    lemma_committed_shape(ms, ops);
    if ops.len() > 0 {
        lemma_unlisted_docs_unchanged(ms, ops.drop_last());
        lemma_committed_shape(ms, ops.drop_last());
        let prefix = apply_ops(ms, ops.drop_last());
        let pre_colls = prefix->Committed_collections;
        let pre_results = prefix->Committed_results;
        let colls = apply_ops(ms, ops)->Committed_collections;
        let results = apply_ops(ms, ops)->Committed_results;
        let op = ops.last();
        let ci_last = collection_index(pre_colls, op.collection);
        lemma_op_outcome_frame(pre_colls[ci_last], op);
        let stepped = op_outcome(pre_colls[ci_last], op)->Success_collection;
        let step_result = op_outcome(pre_colls[ci_last], op)->Success_result;
        assert(colls == pre_colls.update(ci_last, stepped));
        assert(results == pre_results.push(step_result));
        assert(names_distinct(pre_colls));
        assert forall|ci: int, d: u64|
            0 <= ci < ms.len() && !(exists|j: int|
                0 <= j < ops.len() && (#[trigger] ops[j]).collection == ms[ci].name && result_id(
                    results[j],
                ) == d) implies {
            &&& (#[trigger] colls[ci].docs.contains_key(d)) == ms[ci].docs.contains_key(d)
            &&& (colls[ci].docs.contains_key(d) ==> colls[ci].docs[d] == ms[ci].docs[d])
        } by {
            // The hypothesis carries over to the prefix run.
            assert(!(exists|j: int|
                0 <= j < ops.drop_last().len() && (#[trigger] ops.drop_last()[j]).collection
                    == ms[ci].name && result_id(pre_results[j]) == d)) by {
                if exists|j: int|
                    0 <= j < ops.drop_last().len() && (#[trigger] ops.drop_last()[j]).collection
                        == ms[ci].name && result_id(pre_results[j]) == d {
                    let j = choose|j: int|
                        0 <= j < ops.drop_last().len() && (#[trigger] ops.drop_last()[j]).collection
                            == ms[ci].name && result_id(pre_results[j]) == d;
                    assert(ops[j].collection == ms[ci].name && result_id(results[j]) == d);
                }
            }
            assert(pre_colls[ci].docs.contains_key(d) == ms[ci].docs.contains_key(d));
            assert(pre_colls[ci].docs.contains_key(d) ==> pre_colls[ci].docs[d] == ms[ci].docs[d]);
            if ci == ci_last {
                // The last operation acts on this collection but names a
                // different document.
                assert(pre_colls[ci].name == ms[ci].name);
                assert(ops[ops.len() - 1].collection == ms[ci].name);
                assert(result_id(results[ops.len() - 1]) != d);
                assert(result_id(step_result) != d);
                assert(colls[ci] == stepped);
                assert(stepped.docs.contains_key(d) == pre_colls[ci].docs.contains_key(d));
                assert(stepped.docs.contains_key(d) ==> stepped.docs[d] == pre_colls[ci].docs[d]);
            } else {
                assert(colls[ci] == pre_colls[ci]);
            }
        }
    }
}


/// Marking keeps every already-marked document and adds the new one.
proof fn lemma_add_invalidation(inv: Seq<u64>, d: u64)
    ensures
        crate::view::add_invalidation(inv, d).contains(d),
        forall|d2: u64|
            inv.contains(d2) ==> crate::view::add_invalidation(inv, d).contains(d2),
{
    if !inv.contains(d) {
        assert(inv.push(d)[inv.len() as int] == d);
        assert forall|d2: u64| inv.contains(d2) implies inv.push(d).contains(d2) by {
            let j = choose|j: int| 0 <= j < inv.len() && inv[j] == d2;
            assert(inv.push(d)[j] == d2);
        }
    }
}

/// The folded stale set covers the old stale set and every changed
/// document of the view's collection.
pub proof fn lemma_fold_invalidations_covers(
    inv: Seq<u64>,
    changes: Seq<ChangedDocumentView>,
    coll: CollectionNameView,
)
    ensures
        forall|d: u64| inv.contains(d) ==> fold_invalidations(inv, changes, coll).contains(d),
        forall|j: int|
            0 <= j < changes.len() && (#[trigger] changes[j]).collection == coll
                ==> fold_invalidations(inv, changes, coll).contains(changes[j].id),
    decreases changes.len(),
{
    if changes.len() > 0 {
        lemma_fold_invalidations_covers(inv, changes.drop_last(), coll);
        let prev = fold_invalidations(inv, changes.drop_last(), coll);
        if changes.last().collection == coll {
            lemma_add_invalidation(prev, changes.last().id);
        }
        assert forall|j: int|
            0 <= j < changes.len() && (#[trigger] changes[j]).collection == coll
                implies fold_invalidations(inv, changes, coll).contains(changes[j].id) by {
            if j < changes.len() - 1 {
                assert(changes.drop_last()[j] == changes[j]);
                assert(prev.contains(changes[j].id));
            }
        }
    }
}


/// LAW: a committed write survives later unrelated commits. If one
/// transaction wrote a document and a later transaction commits without
/// listing that document, the document still holds exactly the first
/// transaction's write; arbitrary chains of such commits preserve it by
/// applying this step at each commit.
pub proof fn lemma_write_survives_unrelated_commit(
    ms: Seq<CollectionModel>,
    first: Seq<OperationView>,
    i: int,
    later: Seq<OperationView>,
)
    requires
        names_distinct(ms),
        0 <= i < first.len(),
        !((#[trigger] first[i]).command is Delete),
        apply_ops(ms, first) matches TxnOutcome::Committed { collections, results } && (forall|
            j: int,
        |
            i < j < first.len() ==> !(first[j].collection == first[i].collection && result_id(
                #[trigger] results[j],
            ) == result_id(results[i]))) && apply_ops(collections, later) is Committed && (forall|
            j: int,
        |
            0 <= j < later.len() ==> !((#[trigger] later[j]).collection == first[i].collection
                && result_id(apply_ops(collections, later)->Committed_results[j]) == result_id(
                results[i],
            ))),
    ensures
        apply_ops(ms, first) matches TxnOutcome::Committed { collections, results } && (apply_ops(
            collections,
            later,
        ) matches TxnOutcome::Committed { collections: after, .. } && {
            let c = first[i].collection;
            let ci = collection_index(after, c);
            &&& has_collection(after, c)
            &&& results[i] matches OperationResultView::DocumentUpdated { header, .. } && {
                &&& after[ci].docs.contains_key(header.id)
                &&& after[ci].docs[header.id].contents == written_contents(first[i]).unwrap()
                &&& after[ci].docs[header.id].revision == header.revision
            }
        }),
{
    lemma_committed_write_visible(ms, first, i);
    lemma_committed_shape(ms, first);
    let mid = apply_ops(ms, first)->Committed_collections;
    let results = apply_ops(ms, first)->Committed_results;
    assert(names_distinct(mid));
    lemma_committed_shape(mid, later);
    lemma_unlisted_docs_unchanged(mid, later);
    let after = apply_ops(mid, later)->Committed_collections;
    let c = first[i].collection;
    let ci = collection_index(mid, c);
    lemma_collection_index(mid, ci);
    assert(after[ci].name == mid[ci].name);
    lemma_collection_index(after, ci);
    let header = results[i]->DocumentUpdated_header;
    assert(mid[ci].name == c);
    assert(!(exists|j: int|
        0 <= j < later.len() && (#[trigger] later[j]).collection == mid[ci].name && result_id(
            apply_ops(mid, later)->Committed_results[j],
        ) == header.id)) by {
        if exists|j: int|
            0 <= j < later.len() && (#[trigger] later[j]).collection == mid[ci].name && result_id(
                apply_ops(mid, later)->Committed_results[j],
            ) == header.id {
            let j = choose|j: int|
                0 <= j < later.len() && (#[trigger] later[j]).collection == mid[ci].name
                    && result_id(apply_ops(mid, later)->Committed_results[j]) == header.id;
            assert(result_id(results[i]) == header.id);
            assert(!(later[j].collection == c && result_id(
                apply_ops(mid, later)->Committed_results[j],
            ) == result_id(results[i])));
            assert(false);
        }
    }
    assert(after[ci].docs.contains_key(header.id) == mid[ci].docs.contains_key(header.id));
    assert(after[ci].docs.contains_key(header.id) ==> after[ci].docs[header.id]
        == mid[ci].docs[header.id]);
}

} // verus!
