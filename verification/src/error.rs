//! The error classes the engine surfaces to callers.

use vstd::prelude::*;

use crate::names::{CollectionName, CollectionNameView, SchemaName, SchemaNameView, ViewName,
    ViewNameView};

verus! {

/// What a `NotFound` error failed to find.
#[derive(Debug)]
pub enum NotFound {
    /// No document with this id exists in the collection.
    Document { collection: CollectionName, id: u64 },
    /// The collection is not part of the database's schema.
    Collection { collection: CollectionName },
    /// No database with this name exists.
    Database { name: String },
    /// The view is not part of the database's schema.
    View { view: ViewName },
}

/// What an `AlreadyExists` error found taken.
#[derive(Debug)]
pub enum AlreadyExists {
    /// A document with this id already exists in the collection.
    Document { collection: CollectionName, id: u64 },
    /// A database with this name (compared case-insensitively) exists.
    Database { name: String },
    /// The schema is already registered with the storage.
    Schema { schema: SchemaName },
}

/// An error surfaced by the engine.
#[derive(Debug)]
pub enum Error {
    /// A revision mismatch on update or delete.
    Conflict { collection: CollectionName, id: u64 },
    /// A document, collection, database or view was missing.
    NotFound(NotFound),
    /// A name or id was already taken.
    AlreadyExists(AlreadyExists),
    /// A name violates the database name grammar.
    InvalidName { name: String },
    /// A database was opened under a different schema than it was
    /// created with.
    SchemaMismatch { database_name: String, schema: SchemaName, stored_schema: SchemaName },
    /// A database record references a schema that is not registered.
    SchemaNotRegistered { schema: SchemaName },
    /// A key or value codec failure.
    Serialization,
    /// An underlying storage failure, including an interrupted
    /// compaction.
    Io,
    /// An invariant violation inside the engine.
    Internal,
}

/// The mathematical value of a `NotFound` error.
pub enum NotFoundView {
    Document { collection: CollectionNameView, id: u64 },
    Collection { collection: CollectionNameView },
    Database { name: Seq<char> },
    View { view: ViewNameView },
}

impl View for NotFound {
    type V = NotFoundView;

    open spec fn view(&self) -> NotFoundView {
        match self {
            NotFound::Document { collection, id } => NotFoundView::Document {
                collection: collection@,
                id: *id,
            },
            NotFound::Collection { collection } => NotFoundView::Collection {
                collection: collection@,
            },
            NotFound::Database { name } => NotFoundView::Database { name: name@ },
            NotFound::View { view } => NotFoundView::View { view: view@ },
        }
    }
}

/// The mathematical value of an `AlreadyExists` error.
pub enum AlreadyExistsView {
    Document { collection: CollectionNameView, id: u64 },
    Database { name: Seq<char> },
    Schema { schema: SchemaNameView },
}

impl View for AlreadyExists {
    type V = AlreadyExistsView;

    open spec fn view(&self) -> AlreadyExistsView {
        match self {
            AlreadyExists::Document { collection, id } => AlreadyExistsView::Document {
                collection: collection@,
                id: *id,
            },
            AlreadyExists::Database { name } => AlreadyExistsView::Database { name: name@ },
            AlreadyExists::Schema { schema } => AlreadyExistsView::Schema { schema: schema@ },
        }
    }
}

/// The mathematical value of an error.
pub enum ErrorView {
    Conflict { collection: CollectionNameView, id: u64 },
    NotFound(NotFoundView),
    AlreadyExists(AlreadyExistsView),
    InvalidName { name: Seq<char> },
    SchemaMismatch {
        database_name: Seq<char>,
        schema: SchemaNameView,
        stored_schema: SchemaNameView,
    },
    SchemaNotRegistered { schema: SchemaNameView },
    Serialization,
    Io,
    Internal,
}

impl View for Error {
    type V = ErrorView;

    open spec fn view(&self) -> ErrorView {
        match self {
            Error::Conflict { collection, id } => ErrorView::Conflict {
                collection: collection@,
                id: *id,
            },
            Error::NotFound(n) => ErrorView::NotFound(n@),
            Error::AlreadyExists(a) => ErrorView::AlreadyExists(a@),
            Error::InvalidName { name } => ErrorView::InvalidName { name: name@ },
            Error::SchemaMismatch { database_name, schema, stored_schema } => {
                ErrorView::SchemaMismatch {
                    database_name: database_name@,
                    schema: schema@,
                    stored_schema: stored_schema@,
                }
            },
            Error::SchemaNotRegistered { schema } => ErrorView::SchemaNotRegistered {
                schema: schema@,
            },
            Error::Serialization => ErrorView::Serialization,
            Error::Io => ErrorView::Io,
            Error::Internal => ErrorView::Internal,
        }
    }
}

} // verus!
