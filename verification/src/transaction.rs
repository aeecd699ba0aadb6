//! Transactions: lists of operations applied as a single atomic unit,
//! and the records the transaction log keeps of committed transactions.

use vstd::prelude::*;
use vstd::slice::slice_to_vec;

use crate::document::{Header, HeaderView};
use crate::names::{CollectionName, CollectionNameView};

verus! {

/// A command to execute within a collection.
#[derive(Debug)]
pub enum Command {
    /// Inserts a new document containing `contents`. If `id` is `None`
    /// a unique id is assigned; if it is `Some` and taken, the
    /// transaction fails and nothing is applied.
    Insert { id: Option<u64>, contents: Vec<u8> },
    /// Updates the document identified by `header`, whose revision must
    /// match the stored one, or the transaction fails with a conflict.
    Update { header: Header, contents: Vec<u8> },
    /// Deletes the document identified by `header`, whose revision must
    /// match the stored one, or the transaction fails with a conflict.
    Delete { header: Header },
}

/// The mathematical value of a command.
pub enum CommandView {
    Insert { id: Option<u64>, contents: Seq<u8> },
    Update { header: HeaderView, contents: Seq<u8> },
    Delete { header: HeaderView },
}

impl View for Command {
    type V = CommandView;

    open spec fn view(&self) -> CommandView {
        match self {
            Command::Insert { id, contents } => CommandView::Insert {
                id: *id,
                contents: contents@,
            },
            Command::Update { header, contents } => CommandView::Update {
                header: header@,
                contents: contents@,
            },
            Command::Delete { header } => CommandView::Delete { header: header@ },
        }
    }
}

/// A single operation performed on a collection.
#[derive(Debug)]
pub struct Operation {
    /// The collection the operation targets.
    pub collection: CollectionName,
    /// The command being performed.
    pub command: Command,
}

/// The mathematical value of an operation.
pub struct OperationView {
    pub collection: CollectionNameView,
    pub command: CommandView,
}

impl View for Operation {
    type V = OperationView;

    open spec fn view(&self) -> OperationView {
        OperationView { collection: self.collection@, command: self.command@ }
    }
}

impl Operation {
    /// An operation inserting a new document with `contents` into
    /// `collection`, under `id` if one is given.
    pub fn insert(collection: CollectionName, id: Option<u64>, contents: Vec<u8>) -> (r: Self)
        ensures
            r@.collection == collection@,
            r@.command == (CommandView::Insert { id, contents: contents@ }),
    {
        Operation { collection, command: Command::Insert { id, contents } }
    }

    /// An operation updating the document `header` identifies in
    /// `collection` to hold `contents`.
    pub fn update(collection: CollectionName, header: Header, contents: Vec<u8>) -> (r: Self)
        ensures
            r@.collection == collection@,
            r@.command == (CommandView::Update { header: header@, contents: contents@ }),
    {
        Operation { collection, command: Command::Update { header, contents } }
    }

    /// An operation deleting the document `header` identifies from
    /// `collection`.
    pub fn delete(collection: CollectionName, header: Header) -> (r: Self)
        ensures
            r@.collection == collection@,
            r@.command == (CommandView::Delete { header: header@ }),
    {
        Operation { collection, command: Command::Delete { header } }
    }
}

/// A list of operations to execute as a single unit: if any operation
/// fails, no change becomes observable.
#[derive(Debug)]
pub struct Transaction {
    /// The operations in this transaction, applied in order.
    pub operations: Vec<Operation>,
}

/// The mathematical values of a list of operations.
pub open spec fn operations_view(ops: Seq<Operation>) -> Seq<OperationView> {
    ops.map_values(|op: Operation| op@)
}

impl View for Transaction {
    type V = Seq<OperationView>;

    open spec fn view(&self) -> Seq<OperationView> {
        operations_view(self.operations@)
    }
}

impl Transaction {
    /// Returns a new, empty transaction.
    pub fn new() -> (r: Self)
        ensures
            r@ == Seq::<OperationView>::empty(),
    {
        let r = Transaction { operations: Vec::new() };
        assert(r@ =~= Seq::<OperationView>::empty());
        r
    }

    /// Adds an operation to the transaction.
    pub fn push(&mut self, operation: Operation)
        ensures
            final(self)@ == old(self)@.push(operation@),
    {
        self.operations.push(operation);
        assert(self@ =~= old(self)@.push(operation@));
    }

    /// Appends an operation to the transaction and returns self.
    pub fn with(self, operation: Operation) -> (r: Self)
        ensures
            r@ == self@.push(operation@),
    {
        let mut this = self;
        this.push(operation);
        this
    }

    /// A transaction holding the single operation given.
    pub fn single(operation: Operation) -> (r: Self)
        ensures
            r@ == seq![operation@],
    {
        let r = Transaction::new().with(operation);
        assert(r@ =~= seq![operation@]);
        r
    }

    /// A transaction that inserts a new document with `contents` into
    /// `collection`, under `id` if one is given.
    pub fn insert(collection: CollectionName, id: Option<u64>, contents: Vec<u8>) -> (r: Self)
        ensures
            r@.len() == 1,
            r@[0].collection == collection@,
            r@[0].command == (CommandView::Insert { id, contents: contents@ }),
    {
        Self::single(Operation::insert(collection, id, contents))
    }

    /// A transaction that updates the document `header` identifies in
    /// `collection` to hold `contents`.
    pub fn update(collection: CollectionName, header: Header, contents: Vec<u8>) -> (r: Self)
        ensures
            r@.len() == 1,
            r@[0].collection == collection@,
            r@[0].command == (CommandView::Update { header: header@, contents: contents@ }),
    {
        Self::single(Operation::update(collection, header, contents))
    }

    /// A transaction that deletes the document `header` identifies from
    /// `collection`.
    pub fn delete(collection: CollectionName, header: Header) -> (r: Self)
        ensures
            r@.len() == 1,
            r@[0].collection == collection@,
            r@[0].command == (CommandView::Delete { header: header@ }),
    {
        Self::single(Operation::delete(collection, header))
    }
}

/// Information about the result of each operation in a transaction.
#[derive(Debug)]
pub enum OperationResult {
    /// An operation succeeded with no information to output.
    Success,
    /// A document was inserted or updated.
    DocumentUpdated { collection: CollectionName, header: Header },
    /// A document was deleted.
    DocumentDeleted { collection: CollectionName, id: u64 },
}

/// The mathematical value of an operation result.
pub enum OperationResultView {
    Success,
    DocumentUpdated { collection: CollectionNameView, header: HeaderView },
    DocumentDeleted { collection: CollectionNameView, id: u64 },
}

impl View for OperationResult {
    type V = OperationResultView;

    open spec fn view(&self) -> OperationResultView {
        match self {
            OperationResult::Success => OperationResultView::Success,
            OperationResult::DocumentUpdated { collection, header } => {
                OperationResultView::DocumentUpdated { collection: collection@, header: header@ }
            },
            OperationResult::DocumentDeleted { collection, id } => {
                OperationResultView::DocumentDeleted { collection: collection@, id: *id }
            },
        }
    }
}

/// A record of a changed document.
#[derive(Debug)]
pub struct ChangedDocument {
    /// The collection of the changed document.
    pub collection: CollectionName,
    /// The id of the changed document.
    pub id: u64,
    /// True if the document was deleted by the transaction.
    pub deleted: bool,
}

/// The mathematical value of a changed-document record.
pub struct ChangedDocumentView {
    pub collection: CollectionNameView,
    pub id: u64,
    pub deleted: bool,
}

impl View for ChangedDocument {
    type V = ChangedDocumentView;

    open spec fn view(&self) -> ChangedDocumentView {
        ChangedDocumentView { collection: self.collection@, id: self.id, deleted: self.deleted }
    }
}

impl ChangedDocument {
    /// An identical copy of this record.
    pub fn duplicate(&self) -> (r: Self)
        ensures
            r@ == self@,
    {
        ChangedDocument {
            collection: self.collection.duplicate(),
            id: self.id,
            deleted: self.deleted,
        }
    }
}

/// A record of a changed key/value entry.
#[derive(Debug)]
pub struct ChangedKey {
    /// The namespace of the key.
    pub namespace: Option<String>,
    /// The key that was changed.
    pub key: String,
    /// True if the key was deleted.
    pub deleted: bool,
}

/// The mathematical value of a changed-key record.
pub struct ChangedKeyView {
    pub namespace: Option<Seq<char>>,
    pub key: Seq<char>,
    pub deleted: bool,
}

impl View for ChangedKey {
    type V = ChangedKeyView;

    open spec fn view(&self) -> ChangedKeyView {
        ChangedKeyView {
            namespace: match &self.namespace {
                Some(n) => Some(n@),
                None => None,
            },
            key: self.key@,
            deleted: self.deleted,
        }
    }
}

impl ChangedKey {
    /// An identical copy of this record.
    pub fn duplicate(&self) -> (r: Self)
        ensures
            r@ == self@,
    {
        ChangedKey {
            namespace: match &self.namespace {
                Some(n) => Some(n.clone()),
                None => None,
            },
            key: self.key.clone(),
            deleted: self.deleted,
        }
    }
}

/// The changes a committed transaction made.
#[derive(Debug)]
pub enum Changes {
    /// A list of changed documents.
    Documents(Vec<ChangedDocument>),
    /// A list of changed key/value entries.
    Keys(Vec<ChangedKey>),
}

/// The mathematical value of a change list.
pub enum ChangesView {
    Documents(Seq<ChangedDocumentView>),
    Keys(Seq<ChangedKeyView>),
}

/// The mathematical values of a list of changed-document records.
pub open spec fn changed_documents_view(ds: Seq<ChangedDocument>) -> Seq<ChangedDocumentView> {
    ds.map_values(|d: ChangedDocument| d@)
}

/// The mathematical values of a list of changed-key records.
pub open spec fn changed_keys_view(ks: Seq<ChangedKey>) -> Seq<ChangedKeyView> {
    ks.map_values(|k: ChangedKey| k@)
}

impl View for Changes {
    type V = ChangesView;

    open spec fn view(&self) -> ChangesView {
        match self {
            Changes::Documents(docs) => ChangesView::Documents(changed_documents_view(docs@)),
            Changes::Keys(keys) => ChangesView::Keys(changed_keys_view(keys@)),
        }
    }
}

impl Changes {
    /// The changed documents, or `None` if the transaction was a
    /// key/value transaction.
    pub fn documents(&self) -> (r: Option<&Vec<ChangedDocument>>)
        ensures
            match r {
                Some(docs) => self@ == ChangesView::Documents(changed_documents_view(docs@)),
                None => self@ is Keys,
            },
    {
        match self {
            Changes::Documents(docs) => Some(docs),
            Changes::Keys(_) => None,
        }
    }

    /// The changed keys, or `None` if the transaction was a document
    /// transaction.
    pub fn keys(&self) -> (r: Option<&Vec<ChangedKey>>)
        ensures
            match r {
                Some(keys) => self@ == ChangesView::Keys(changed_keys_view(keys@)),
                None => self@ is Documents,
            },
    {
        match self {
            Changes::Documents(_) => None,
            Changes::Keys(keys) => Some(keys),
        }
    }

    /// An identical copy of this change list.
    pub fn duplicate(&self) -> (r: Self)
        ensures
            r@ == self@,
    {
        match self {
            Changes::Documents(docs) => {
                let mut out: Vec<ChangedDocument> = Vec::new();
                let mut i: usize = 0;
                while i < docs.len()
                    invariant
                        0 <= i <= docs.len(),
                        out.len() == i,
                        forall|j: int| 0 <= j < i ==> #[trigger] out[j]@ == docs[j]@,
                    decreases docs.len() - i,
                {
                    out.push(docs[i].duplicate());
                    i += 1;
                }
                let r = Changes::Documents(out);
                assert(changed_documents_view(out@) =~= changed_documents_view(docs@));
                r
            },
            Changes::Keys(keys) => {
                let mut out: Vec<ChangedKey> = Vec::new();
                let mut i: usize = 0;
                while i < keys.len()
                    invariant
                        0 <= i <= keys.len(),
                        out.len() == i,
                        forall|j: int| 0 <= j < i ==> #[trigger] out[j]@ == keys[j]@,
                    decreases keys.len() - i,
                {
                    out.push(keys[i].duplicate());
                    i += 1;
                }
                let r = Changes::Keys(out);
                assert(changed_keys_view(out@) =~= changed_keys_view(keys@));
                r
            },
        }
    }
}

/// Details about an executed transaction, as the log records it.
#[derive(Debug)]
pub struct Executed {
    /// The id of the transaction; ids are assigned in commit order and
    /// are contiguous starting from 1.
    pub id: u64,
    /// The changes the transaction made.
    pub changes: Changes,
}

/// The mathematical value of a log record.
pub struct ExecutedView {
    pub id: u64,
    pub changes: ChangesView,
}

impl View for Executed {
    type V = ExecutedView;

    open spec fn view(&self) -> ExecutedView {
        ExecutedView { id: self.id, changes: self.changes@ }
    }
}

impl Executed {
    /// An identical copy of this log record.
    pub fn duplicate(&self) -> (r: Self)
        ensures
            r@ == self@,
    {
        Executed { id: self.id, changes: self.changes.duplicate() }
    }
}

/// An identical copy of a byte string.
pub fn copy_bytes(bytes: &Vec<u8>) -> (r: Vec<u8>)
    ensures
        r@ == bytes@,
{
    slice_to_vec(bytes.as_slice())
}

} // verus!
