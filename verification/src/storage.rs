//! Multi-database storage: the registry of schemas, the set of created
//! databases (names unique case-insensitively), the storage id, and
//! database-name validation.

use vstd::prelude::*;
use vstd::string::StringSliceAdditionalSpecFns;

use crate::connection::Database as DatabaseRecord;
use crate::error::{AlreadyExists, Error, ErrorView, NotFound, NotFoundView};
use crate::names::{database_name_is_valid, folded, names_equal_folded, valid_name_byte_at,
    SchemaName, SchemaNameView, valid_database_name};
use crate::schema::{Schema, Schematic};
use crate::tasks::TaskManager;

verus! {

/// The unique id of a storage instance.
#[derive(Clone, Copy, Debug, PartialEq, Eq, Structural)]
pub struct StorageId(pub u64);

impl StorageId {
    /// Returns the id as an integer.
    pub fn as_u64(self) -> (r: u64)
        ensures
            r == self.0,
    {
        self.0
    }
}

/// Relies on `rand::random`: a fresh random integer; nothing is
/// promised of its value.
#[verifier::external_body]
fn random_u64() -> u64 {
    rand::random()
}

/// Whether `b` is an ASCII decimal digit.
pub open spec fn is_decimal_digit(b: u8) -> bool {
    0x30 <= b <= 0x39
}

/// The integer value of a string of decimal digits.
pub open spec fn decimal_value(s: Seq<u8>) -> int
    decreases s.len(),
{
    if s.len() == 0 {
        0
    } else {
        decimal_value(s.drop_last()) * 10 + (s.last() - 0x30)
    }
}

/// Whether a byte string is the ASCII decimal form of a 64-bit integer.
pub open spec fn is_decimal_u64(s: Seq<u8>) -> bool {
    &&& s.len() > 0
    &&& forall|i: int| 0 <= i < s.len() ==> is_decimal_digit(#[trigger] s[i])
    &&& decimal_value(s) <= u64::MAX
}

/// A digit string's value only grows as digits are appended.
proof fn lemma_decimal_monotone(s: Seq<u8>, i: int)
    requires
        0 <= i <= s.len(),
        forall|j: int| 0 <= j < s.len() ==> is_decimal_digit(#[trigger] s[j]),
    ensures
        decimal_value(s.take(i)) <= decimal_value(s),
        decimal_value(s) >= 0,
    decreases s.len() - i,
{
    if i == s.len() {
        assert(s.take(i) =~= s);
        lemma_decimal_nonneg(s);
    } else {
        lemma_decimal_monotone(s, i + 1);
        assert(s.take(i + 1).drop_last() =~= s.take(i));
        assert(s.take(i + 1).last() == s[i]);
        assert forall|j: int| 0 <= j < s.take(i).len() implies is_decimal_digit(
            #[trigger] s.take(i)[j],
        ) by {
            assert(s.take(i)[j] == s[j]);
        }
        lemma_decimal_nonneg(s.take(i));
    }
}

/// A digit string's value is never negative.
proof fn lemma_decimal_nonneg(s: Seq<u8>)
    requires
        forall|j: int| 0 <= j < s.len() ==> is_decimal_digit(#[trigger] s[j]),
    ensures
        decimal_value(s) >= 0,
    decreases s.len(),
{
    if s.len() > 0 {
        assert forall|j: int| 0 <= j < s.drop_last().len() implies is_decimal_digit(
            #[trigger] s.drop_last()[j],
        ) by {
            assert(s.drop_last()[j] == s[j]);
        }
        lemma_decimal_nonneg(s.drop_last());
    }
}

/// Parses the ASCII decimal form of a 64-bit integer; anything else --
/// empty, a non-digit, or a value above the integer range -- is
/// rejected.
pub fn parse_decimal_u64(bytes: &[u8]) -> (r: Option<u64>)
    ensures
        match r {
            Some(v) => is_decimal_u64(bytes@) && v == decimal_value(bytes@),
            None => !is_decimal_u64(bytes@),
        },
{
    if bytes.len() == 0 {
        return None;
    }
    let mut acc: u64 = 0;
    let mut i: usize = 0;
    proof {
        assert(bytes@.take(0) =~= Seq::<u8>::empty());
    }
    while i < bytes.len()
        invariant
            0 <= i <= bytes@.len(),
            forall|j: int| 0 <= j < i ==> is_decimal_digit(#[trigger] bytes@[j]),
            acc == decimal_value(bytes@.take(i as int)),
        decreases bytes@.len() - i,
    {
        let b = bytes[i];
        if b < 0x30 || b > 0x39 {
            assert(!is_decimal_digit(bytes@[i as int]));
            return None;
        }
        let d = b - 0x30;
        proof {
            assert(bytes@.take(i + 1).drop_last() =~= bytes@.take(i as int));
            assert(bytes@.take(i + 1).last() == bytes@[i as int]);
        }
        if acc > (u64::MAX - d as u64) / 10 {
            // The value no longer fits; appending further digits only
            // grows it.
            proof {
                assert(decimal_value(bytes@.take(i + 1)) > u64::MAX);
                if forall|j: int| 0 <= j < bytes@.len() ==> is_decimal_digit(#[trigger] bytes@[j]) {
                    lemma_decimal_monotone(bytes@, i + 1);
                }
            }
            return None;
        }
        acc = acc * 10 + d as u64;
        i += 1;
    }
    proof {
        assert(bytes@.take(bytes@.len() as int) =~= bytes@);
    }
    Some(acc)
}

/// One registered schema: its name and the declaration it opens
/// databases under.
#[derive(Debug)]
pub struct RegisteredSchema {
    /// The schema's name.
    pub name: SchemaName,
    /// The schema's collections and views.
    pub schematic: Schematic,
}

/// A file-based, multi-database storage instance.
#[derive(Debug)]
pub struct Storage {
    /// The storage's unique id.
    pub id: StorageId,
    /// The directory the storage keeps its databases under.
    pub path: String,
    /// The registered schemas, names unique.
    pub schemas: Vec<RegisteredSchema>,
    /// The created databases; names unique under case folding.
    pub available_databases: Vec<DatabaseRecord>,
    /// The names of databases whose trees are open, each at most once.
    pub open_roots: Vec<String>,
    /// Whether views are integrity-scanned when a database opens.
    pub check_view_integrity_on_database_open: bool,
    /// The background worker pool.
    pub tasks: TaskManager,
}

/// The schema names of the registry.
pub open spec fn schema_names(ss: Seq<RegisteredSchema>) -> Seq<SchemaNameView> {
    ss.map_values(|s: RegisteredSchema| s.name@)
}

/// The results of a schema listing cover exactly the schemas the
/// databases use: every listed name is some database's schema, and
/// every database's schema is listed.
pub open spec fn schemas_cover(dbs: Seq<DatabaseRecord>, out: Seq<SchemaName>) -> bool {
    &&& forall|k: int|
        #![trigger out[k]]
        0 <= k < out.len() ==> exists|j: int|
            0 <= j < dbs.len() && (#[trigger] dbs[j]).schema@ == out[k]@
    &&& forall|j: int|
        0 <= j < dbs.len() ==> exists|k: int|
            0 <= k < out.len() && (#[trigger] dbs[j]).schema@ == out[k]@
}

/// Whether some open-roots entry carries this database name, compared
/// case-insensitively.
pub open spec fn roots_contain(roots: Seq<String>, name: Seq<char>) -> bool {
    exists|i: int| 0 <= i < roots.len() && folded((#[trigger] roots[i])@) == folded(name)
}

/// The database names of the record list, case folded.
pub open spec fn folded_names(rs: Seq<DatabaseRecord>) -> Seq<Seq<u32>> {
    rs.map_values(|r: DatabaseRecord| folded(r.name@))
}

/// The record list with case-folded duplicate names dropped, keeping
/// each name's first record.
pub open spec fn dedup_records(entries: Seq<DatabaseRecord>) -> Seq<DatabaseRecord>
    decreases entries.len(),
{
    if entries.len() == 0 {
        Seq::empty()
    } else {
        let prev = dedup_records(entries.drop_last());
        if folded_names(prev).contains(folded(entries.last().name@)) {
            prev
        } else {
            prev.push(entries.last())
        }
    }
}

/// Whether two record lists name the same databases under the same
/// schemas, position by position.
pub open spec fn records_match(a: Seq<DatabaseRecord>, b: Seq<DatabaseRecord>) -> bool {
    &&& a.len() == b.len()
    &&& forall|i: int|
        0 <= i < a.len() ==> (#[trigger] a[i]).name@ == b[i].name@ && a[i].schema@ == b[i].schema@
}

impl Storage {
    /// Well-formedness: schema names unique, database names unique
    /// under case folding, open roots unique.
    pub open spec fn wf(&self) -> bool {
        &&& forall|a: int, b: int|
            0 <= a < b < self.schemas@.len() ==> #[trigger] schema_names(self.schemas@)[a]
                != #[trigger] schema_names(self.schemas@)[b]
        &&& forall|a: int, b: int|
            0 <= a < b < self.available_databases@.len() ==> #[trigger] folded_names(
                self.available_databases@,
            )[a] != #[trigger] folded_names(self.available_databases@)[b]
        &&& forall|a: int, b: int|
            0 <= a < b < self.open_roots@.len() ==> folded(#[trigger] self.open_roots@[a]@)
                != folded(#[trigger] self.open_roots@[b]@)
    }

    /// The reserved administration database's name fits the grammar.
    pub proof fn lemma_admin_name_valid()
        ensures
            valid_database_name("_admin".spec_bytes()),
    {
        reveal_strlit("_admin");
        assert(vstd::string::is_ascii("_admin")) by {
            assert forall|i: int|
                0 <= i < "_admin"@.len() implies '\0' <= #[trigger] "_admin"@[i] <= '\u{7f}' by {
                if i == 0 {
                    assert("_admin"@[0] == '_');
                } else if i == 1 {
                    assert("_admin"@[1] == 'a');
                } else if i == 2 {
                    assert("_admin"@[2] == 'd');
                } else if i == 3 {
                    assert("_admin"@[3] == 'm');
                } else if i == 4 {
                    assert("_admin"@[4] == 'i');
                } else {
                    assert("_admin"@[5] == 'n');
                }
            }
        }
        vstd::string::is_ascii_spec_bytes("_admin");
        let bytes = "_admin".spec_bytes();
        assert(bytes.len() == 6);
        assert forall|i: int|
            0 <= i < bytes.len() implies valid_name_byte_at(#[trigger] bytes[i], i) by {
            assert(bytes[i] == "_admin"@[i] as u8);
            if i == 0 {
                assert("_admin"@[0] == '_');
                assert(bytes[0] == 0x5f);
            } else if i == 1 {
                assert("_admin"@[1] == 'a');
                assert(bytes[1] == 0x61);
            } else if i == 2 {
                assert("_admin"@[2] == 'd');
                assert(bytes[2] == 0x64);
            } else if i == 3 {
                assert("_admin"@[3] == 'm');
                assert(bytes[3] == 0x6d);
            } else if i == 4 {
                assert("_admin"@[4] == 'i');
                assert(bytes[4] == 0x69);
            } else {
                assert("_admin"@[5] == 'n');
                assert(bytes[5] == 0x6e);
            }
        }
    }

    /// Checks a database name against the grammar: first character
    /// alphanumeric or an underscore, the rest alphanumeric, `.` or
    /// `-`, at most 64 bytes.
    pub fn validate_name(name: &str) -> (r: Result<(), Error>)
        ensures
            r is Ok <==> valid_database_name(name.spec_bytes()),
            r matches Err(e) ==> e@ == (ErrorView::InvalidName { name: name@ }),
    {
        if database_name_is_valid(name) {
            Ok(())
        } else {
            Err(Error::InvalidName { name: name.to_owned() })
        }
    }

    /// The storage id to run under: a configured override wins and is
    /// not persisted; otherwise the id file's ASCII decimal contents are
    /// authoritative; with neither, a fresh random id is drawn, to be
    /// persisted by the caller (the second result says so).
    pub fn lookup_or_create_id(configured: Option<u64>, id_file: Option<&Vec<u8>>) -> (r: (
        StorageId,
        bool,
    ))
        requires
            match id_file {
                Some(bytes) => is_decimal_u64(bytes@),
                None => true,
            },
        ensures
            match configured {
                Some(v) => r.0.0 == v && !r.1,
                None => match id_file {
                    Some(bytes) => r.0.0 == decimal_value(bytes@) && !r.1,
                    None => r.1,
                },
            },
    {
        match configured {
            Some(v) => (StorageId(v), false),
            None => match id_file {
                Some(bytes) => {
                    match parse_decimal_u64(bytes.as_slice()) {
                        Some(v) => (StorageId(v), false),
                        None => {
                            proof {
                                assert(false);
                            }
                            (StorageId(0), false)
                        },
                    }
                },
                None => (StorageId(random_u64()), true),
            },
        }
    }

    /// Creates or opens a storage rooted at `path`. The id comes from
    /// the configuration override, from the id file's contents, or is
    /// freshly drawn; the second result asks the caller to persist a
    /// fresh id.
    pub fn open(
        path: &str,
        configured_id: Option<u64>,
        id_file: Option<&Vec<u8>>,
        check_view_integrity_on_database_open: bool,
        worker_count: u64,
    ) -> (r: (Storage, bool))
        requires
            match id_file {
                Some(bytes) => is_decimal_u64(bytes@),
                None => true,
            },
        ensures
            r.0.wf(),
            r.0.path@ == path@,
            r.0.check_view_integrity_on_database_open == check_view_integrity_on_database_open,
            r.0.schemas@.len() == 0,
            r.0.available_databases@.len() == 0,
            r.0.open_roots@.len() == 0,
            match configured_id {
                Some(v) => r.0.id.0 == v && !r.1,
                None => match id_file {
                    Some(bytes) => r.0.id.0 == decimal_value(bytes@) && !r.1,
                    None => r.1,
                },
            },
    {
        let (id, fresh) = Self::lookup_or_create_id(configured_id, id_file);
        let storage = Storage {
            id,
            path: path.to_owned(),
            schemas: Vec::new(),
            available_databases: Vec::new(),
            open_roots: Vec::new(),
            check_view_integrity_on_database_open,
            tasks: TaskManager::new(worker_count),
        };
        (storage, fresh)
    }

    /// The unique id of the storage.
    pub fn unique_id(&self) -> (r: StorageId)
        ensures
            r == self.id,
    {
        self.id
    }

    /// The index of the registered schema named `name`, if any.
    fn schema_index(&self, name: &SchemaName) -> (r: Option<usize>)
        ensures
            match r {
                Some(i) => i < self.schemas@.len() && self.schemas@[i as int].name@ == name@,
                None => forall|j: int|
                    0 <= j < self.schemas@.len() ==> #[trigger] schema_names(self.schemas@)[j]
                        != name@,
            },
    {
        let mut i: usize = 0;
        while i < self.schemas.len()
            invariant
                0 <= i <= self.schemas@.len(),
                forall|j: int| 0 <= j < i ==> #[trigger] schema_names(self.schemas@)[j] != name@,
            decreases self.schemas@.len() - i,
        {
            if self.schemas[i].name.same_as(name) {
                assert(schema_names(self.schemas@)[i as int] == self.schemas@[i as int].name@);
                return Some(i);
            }
            assert(schema_names(self.schemas@)[i as int] == self.schemas@[i as int].name@);
            i += 1;
        }
        None
    }

    /// Registers a schema under its name and declaration; a name
    /// already registered is rejected.
    pub fn register_schema_named(&mut self, name: SchemaName, schematic: Schematic) -> (r: Result<
        (),
        Error,
    >)
        requires
            old(self).wf(),
        ensures
            final(self).wf(),
            match r {
                Ok(()) => {
                    &&& !schema_names(old(self).schemas@).contains(name@)
                    &&& final(self).schemas@.len() == old(self).schemas@.len() + 1
                    &&& final(self).schemas@.last().name@ == name@
                    &&& forall|j: int|
                        0 <= j < old(self).schemas@.len() ==> #[trigger] final(self).schemas@[j]
                            == old(self).schemas@[j]
                },
                Err(e) => {
                    &&& schema_names(old(self).schemas@).contains(name@)
                    &&& e@ == ErrorView::AlreadyExists(
                        crate::error::AlreadyExistsView::Schema { schema: name@ },
                    )
                    &&& *final(self) == *old(self)
                },
            },
            final(self).available_databases == old(self).available_databases,
            final(self).id == old(self).id,
            final(self).open_roots == old(self).open_roots,
    {
        match self.schema_index(&name) {
            Some(i) => {
                assert(schema_names(self.schemas@)[i as int] == name@);
                assert(schema_names(self.schemas@).contains(name@));
                Err(Error::AlreadyExists(AlreadyExists::Schema { schema: name }))
            },
            None => {
                assert(!schema_names(self.schemas@).contains(name@));
                self.schemas.push(RegisteredSchema { name, schematic });
                proof {
                    assert(schema_names(self.schemas@) =~= schema_names(old(self).schemas@).push(
                        self.schemas@.last().name@,
                    ));
                    assert forall|a: int, b: int|
                        0 <= a < b < self.schemas@.len() implies #[trigger] schema_names(
                        self.schemas@,
                    )[a] != #[trigger] schema_names(self.schemas@)[b] by {
                        if b < self.schemas@.len() - 1 {
                            assert(schema_names(self.schemas@)[a] == schema_names(
                                old(self).schemas@,
                            )[a]);
                            assert(schema_names(self.schemas@)[b] == schema_names(
                                old(self).schemas@,
                            )[b]);
                        } else {
                            assert(schema_names(self.schemas@)[a] == schema_names(
                                old(self).schemas@,
                            )[a]);
                            assert(schema_names(old(self).schemas@).contains(schema_names(
                                old(self).schemas@,
                            )[a]));
                        }
                    }
                }
                Ok(())
            },
        }
    }

    /// Registers the schema `DB` declares: on success the registry has
    /// gained exactly one schema, one not registered before. Failure --
    /// `DB`'s declaration refusing to build, or its name being taken --
    /// leaves the storage untouched.
    pub fn register_schema<DB: Schema>(&mut self) -> (r: Result<(), Error>)
        requires
            old(self).wf(),
        ensures
            final(self).wf(),
            final(self).available_databases == old(self).available_databases,
            final(self).id == old(self).id,
            r is Ok ==> {
                &&& final(self).schemas@.len() == old(self).schemas@.len() + 1
                &&& forall|j: int|
                    0 <= j < old(self).schemas@.len() ==> #[trigger] final(self).schemas@[j]
                        == old(self).schemas@[j]
                &&& !schema_names(old(self).schemas@).contains(
                    schema_names(final(self).schemas@).last(),
                )
            },
            r is Err ==> *final(self) == *old(self),
    {
        let name = DB::schema_name();
        let schematic = match DB::schematic() {
            Ok(s) => s,
            Err(e) => {
                return Err(e);
            },
        };
        self.register_schema_named(name, schematic)
    }

    /// The index of the database record whose name folds to the same
    /// name as `name`.
    fn database_index(&self, name: &str) -> (r: Option<usize>)
        ensures
            match r {
                Some(i) => i < self.available_databases@.len() && folded_names(
                    self.available_databases@,
                )[i as int] == folded(name@),
                None => forall|j: int|
                    0 <= j < self.available_databases@.len() ==> #[trigger] folded_names(
                        self.available_databases@,
                    )[j] != folded(name@),
            },
    {
        let mut i: usize = 0;
        while i < self.available_databases.len()
            invariant
                0 <= i <= self.available_databases@.len(),
                forall|j: int|
                    0 <= j < i ==> #[trigger] folded_names(self.available_databases@)[j] != folded(name@),
            decreases self.available_databases@.len() - i,
        {
            if names_equal_folded(self.available_databases[i].name.as_str(), name) {
                assert(folded_names(self.available_databases@)[i as int] == folded(
                    self.available_databases@[i as int].name@,
                ));
                return Some(i);
            }
            assert(folded_names(self.available_databases@)[i as int] == folded(
                self.available_databases@[i as int].name@,
            ));
            i += 1;
        }
        None
    }

    /// Creates a database named `name` under the schema given: the name
    /// must fit the grammar, the schema must be registered, and the
    /// name must be free (case-insensitively) -- unless `only_if_needed`
    /// accepts an existing database.
    pub fn create_database_with_schema(
        &mut self,
        name: &str,
        schema: SchemaName,
        only_if_needed: bool,
    ) -> (r: Result<(), Error>)
        requires
            old(self).wf(),
        ensures
            final(self).wf(),
            final(self).schemas == old(self).schemas,
            final(self).id == old(self).id,
            match r {
                Ok(()) => {
                    &&& valid_database_name(name.spec_bytes())
                    &&& schema_names(old(self).schemas@).contains(schema@)
                    &&& if folded_names(old(self).available_databases@).contains(
                        folded(name@),
                    ) {
                        only_if_needed && *final(self) == *old(self)
                    } else {
                        final(self).available_databases@.len() == old(self).available_databases@.len() + 1 && final(self).available_databases@.last().name@ == name@ && final(self).available_databases@.last().schema@ == schema@ && forall|j: int|
                            0 <= j < old(self).available_databases@.len() ==> #[trigger] final(self).available_databases@[j] == old(self).available_databases@[j]
                    }
                },
                Err(e) => {
                    &&& *final(self) == *old(self)
                    &&& if !valid_database_name(name.spec_bytes()) {
                        e@ == (ErrorView::InvalidName { name: name@ })
                    } else if !schema_names(old(self).schemas@).contains(schema@) {
                        e@ == ErrorView::SchemaNotRegistered { schema: schema@ }
                    } else {
                        !only_if_needed && folded_names(old(self).available_databases@).contains(
                            folded(name@),
                        ) && e@ == ErrorView::AlreadyExists(
                            crate::error::AlreadyExistsView::Database { name: name@ },
                        )
                    }
                },
            },
    {
        match Self::validate_name(name) {
            Ok(()) => {},
            Err(e) => {
                return Err(e);
            },
        }
        match self.schema_index(&schema) {
            Some(_) => {
                assert(schema_names(self.schemas@).contains(schema@)) by {
                    let i = choose|i: int|
                        0 <= i < self.schemas@.len() && self.schemas@[i].name@ == schema@;
                    assert(schema_names(self.schemas@)[i] == schema@);
                };
            },
            None => {
                assert(!schema_names(self.schemas@).contains(schema@));
                return Err(Error::SchemaNotRegistered { schema });
            },
        }
        match self.database_index(name) {
            Some(i) => {
                assert(folded_names(self.available_databases@).contains(folded(name@)));
                if only_if_needed {
                    Ok(())
                } else {
                    Err(
                        Error::AlreadyExists(
                            AlreadyExists::Database { name: name.to_owned() },
                        ),
                    )
                }
            },
            None => {
                assert(!folded_names(self.available_databases@).contains(folded(name@)));
                self.available_databases.push(
                    DatabaseRecord { name: name.to_owned(), schema },
                );
                proof {
                    assert(folded_names(self.available_databases@) =~= folded_names(
                        old(self).available_databases@,
                    ).push(folded(name@)));
                    assert forall|a: int, b: int|
                        0 <= a < b < self.available_databases@.len() implies #[trigger] folded_names(
                        self.available_databases@,
                    )[a] != #[trigger] folded_names(self.available_databases@)[b] by {
                        if b < self.available_databases@.len() - 1 {
                            assert(folded_names(self.available_databases@)[a] == folded_names(
                                old(self).available_databases@,
                            )[a]);
                            assert(folded_names(self.available_databases@)[b] == folded_names(
                                old(self).available_databases@,
                            )[b]);
                        } else {
                            assert(folded_names(self.available_databases@)[a] == folded_names(
                                old(self).available_databases@,
                            )[a]);
                            assert(folded_names(old(self).available_databases@).contains(
                                folded_names(old(self).available_databases@)[a],
                            ));
                        }
                    }
                }
                Ok(())
            },
        }
    }

    /// Opens the database named `name` under the schema given: the
    /// record's stored schema must be the one requested.
    pub fn database(&self, name: &str, schema: &SchemaName) -> (r: Result<DatabaseRecord, Error>)
        requires
            self.wf(),
        ensures
            match r {
                Ok(record) => exists|i: int|
                    {
                        &&& 0 <= i < self.available_databases@.len()
                        &&& folded_names(self.available_databases@)[i] == folded(name@)
                        &&& (#[trigger] self.available_databases@[i]).schema@ == schema@
                        &&& record.name@ == self.available_databases@[i].name@
                        &&& record.schema@ == schema@
                    },
                Err(e) => match e {
                    Error::NotFound(_) => !folded_names(self.available_databases@).contains(
                        folded(name@),
                    ) && e@ == ErrorView::NotFound(NotFoundView::Database { name: name@ }),
                    Error::SchemaMismatch { .. } => exists|i: int|
                        {
                            &&& 0 <= i < self.available_databases@.len()
                            &&& folded_names(self.available_databases@)[i] == folded(name@)
                            &&& (#[trigger] self.available_databases@[i]).schema@ != schema@
                        },
                    _ => false,
                },
            },
    {
        match self.database_index(name) {
            Some(i) => {
                let record = &self.available_databases[i];
                if record.schema.same_as(schema) {
                    Ok(record.duplicate_with_schema(schema))
                } else {
                    Err(
                        Error::SchemaMismatch {
                            database_name: name.to_owned(),
                            schema: schema.duplicate(),
                            stored_schema: record.schema.duplicate(),
                        },
                    )
                }
            },
            None => {
                assert(!folded_names(self.available_databases@).contains(folded(name@)));
                Err(Error::NotFound(NotFound::Database { name: name.to_owned() }))
            },
        }
    }

    /// Opens the database named `name` without a schema type at hand:
    /// the stored record names the schema, which must be registered.
    pub fn database_without_schema(&self, name: &str) -> (r: Result<DatabaseRecord, Error>)
        requires
            self.wf(),
        ensures
            match r {
                Ok(record) => exists|i: int|
                    {
                        &&& 0 <= i < self.available_databases@.len()
                        &&& folded_names(self.available_databases@)[i] == folded(name@)
                        &&& record.name@ == (#[trigger] self.available_databases@[i]).name@
                        &&& record.schema@ == self.available_databases@[i].schema@
                        &&& schema_names(self.schemas@).contains(record.schema@)
                    },
                Err(e) => match e {
                    Error::NotFound(_) => !folded_names(self.available_databases@).contains(
                        folded(name@),
                    ) && e@ == ErrorView::NotFound(NotFoundView::Database { name: name@ }),
                    Error::SchemaNotRegistered { .. } => exists|i: int|
                        {
                            &&& 0 <= i < self.available_databases@.len()
                            &&& folded_names(self.available_databases@)[i] == folded(name@)
                            &&& !schema_names(self.schemas@).contains(
                                (#[trigger] self.available_databases@[i]).schema@,
                            )
                        },
                    _ => false,
                },
            },
    {
        let i = match self.database_index(name) {
            Some(i) => i,
            None => {
                assert(!folded_names(self.available_databases@).contains(folded(name@)));
                return Err(Error::NotFound(NotFound::Database { name: name.to_owned() }));
            },
        };
        let record = &self.available_databases[i];
        match self.schema_index(&record.schema) {
            Some(si) => {
                assert(schema_names(self.schemas@)[si as int] == record.schema@);
                assert(schema_names(self.schemas@).contains(record.schema@));
                Ok(record.duplicate())
            },
            None => {
                assert(!schema_names(self.schemas@).contains(record.schema@));
                Err(Error::SchemaNotRegistered { schema: record.schema.duplicate() })
            },
        }
    }

    /// The administration database's record: the reserved database the
    /// storage keeps its bookkeeping in.
    pub fn admin(&self) -> (r: DatabaseRecord)
        ensures
            r.name@ == "_admin"@,
            r.schema@.authority == "khonsulabs"@,
            r.schema@.name == "bonsaidb-admin"@,
    {
        DatabaseRecord {
            name: "_admin".to_owned(),
            schema: crate::names::SchemaName::new("khonsulabs", "bonsaidb-admin"),
        }
    }

    /// Registers the administration schema and creates the reserved
    /// administration database when it does not exist yet. Nothing here
    /// can fail: the schema builds, registering it twice is tolerated,
    /// and the database is created only if needed.
    pub fn create_admin_database_if_needed(&mut self) -> (r: Result<(), Error>)
        requires
            old(self).wf(),
        ensures
            final(self).wf(),
            final(self).id == old(self).id,
            r is Ok,
            schema_names(final(self).schemas@).contains(
                SchemaNameView { authority: "khonsulabs"@, name: "bonsaidb-admin"@ },
            ),
            folded_names(final(self).available_databases@).contains(folded("_admin"@)),
    {
        let admin_schema = crate::names::SchemaName::new("khonsulabs", "bonsaidb-admin");
        let ghost admin_view = SchemaNameView { authority: "khonsulabs"@, name: "bonsaidb-admin"@ };
        let schematic = crate::admin::admin_schematic();
        let registered = self.register_schema_named(admin_schema, schematic);
        proof {
            match registered {
                Ok(()) => {
                    assert(schema_names(self.schemas@).last() == admin_view);
                    assert(schema_names(self.schemas@).contains(admin_view)) by {
                        assert(schema_names(self.schemas@)[self.schemas@.len() - 1] == admin_view);
                    }
                },
                Err(_) => {
                    assert(schema_names(self.schemas@).contains(admin_view));
                },
            }
            Self::lemma_admin_name_valid();
        }
        let created = self.create_database_with_schema(
            "_admin",
            crate::names::SchemaName::new("khonsulabs", "bonsaidb-admin"),
            true,
        );
        match created {
            Ok(()) => {
                proof {
                    if !folded_names(self.available_databases@).contains(folded("_admin"@)) {
                        assert(folded_names(self.available_databases@).last() == folded(
                            "_admin"@,
                        ));
                        assert(folded_names(self.available_databases@)[self.available_databases@.len()
                            - 1] == folded("_admin"@));
                        assert(false);
                    }
                }
                Ok(())
            },
            Err(e) => {
                proof {
                    assert(false);
                }
                Err(e)
            },
        }
    }

    /// Deletes the database named `name`: its record and its open-root
    /// entry leave the storage; a name with no record is an error.
    pub fn delete_database(&mut self, name: &str) -> (r: Result<(), Error>)
        requires
            old(self).wf(),
        ensures
            final(self).wf(),
            final(self).schemas == old(self).schemas,
            final(self).id == old(self).id,
            !roots_contain(final(self).open_roots@, name@),
            match r {
                Ok(()) => {
                    &&& folded_names(old(self).available_databases@).contains(
                        folded(name@),
                    )
                    &&& !folded_names(final(self).available_databases@).contains(
                        folded(name@),
                    )
                    &&& final(self).available_databases@.len() == old(self).available_databases@.len() - 1
                },
                Err(e) => {
                    &&& !folded_names(old(self).available_databases@).contains(
                        folded(name@),
                    )
                    &&& e@ == ErrorView::NotFound(NotFoundView::Database { name: name@ })
                    &&& final(self).available_databases == old(self).available_databases
                },
            },
    {
        // Forget the open root, if any.
        let mut k: usize = 0;
        let mut root_index: Option<usize> = None;
        while k < self.open_roots.len() && root_index.is_none()
            invariant
                0 <= k <= self.open_roots@.len(),
                *self == *old(self),
                old(self).wf(),
                root_index matches Some(ri) ==> ri < self.open_roots@.len() && folded(
                    self.open_roots@[ri as int]@,
                ) == folded(name@),
                root_index is None ==> forall|j: int|
                    0 <= j < k ==> folded((#[trigger] self.open_roots@[j])@) != folded(name@),
            decreases self.open_roots@.len() - k, (if root_index.is_none() {
                1int
            } else {
                0int
            }),
        {
            if names_equal_folded(self.open_roots[k].as_str(), name) {
                root_index = Some(k);
            } else {
                k += 1;
            }
        }
        match root_index {
            Some(ri) => {
                let ghost roots_before = self.open_roots@;
                self.open_roots.remove(ri);
                proof {
                    assert forall|a: int, b: int|
                        0 <= a < b < self.open_roots@.len() implies folded(
                        (#[trigger] self.open_roots@[a])@,
                    ) != folded((#[trigger] self.open_roots@[b])@) by {
                        let a2 = if a < ri {
                            a
                        } else {
                            a + 1
                        };
                        let b2 = if b < ri {
                            b
                        } else {
                            b + 1
                        };
                        assert(self.open_roots@[a] == roots_before[a2]);
                        assert(self.open_roots@[b] == roots_before[b2]);
                    }
                    // Every remaining entry folds differently from the
                    // removed one, so the name is gone.
                    assert forall|j: int|
                        0 <= j < self.open_roots@.len() implies folded(
                        (#[trigger] self.open_roots@[j])@,
                    ) != folded(name@) by {
                        let j2 = if j < ri {
                            j
                        } else {
                            j + 1
                        };
                        assert(self.open_roots@[j] == roots_before[j2]);
                        if j2 != ri {
                            assert(folded(roots_before[j2]@) != folded(roots_before[ri as int]@));
                        }
                    }
                    assert(!roots_contain(self.open_roots@, name@));
                }
            },
            None => {
                proof {
                    assert(!roots_contain(self.open_roots@, name@));
                }
            },
        }
        match self.database_index(name) {
            Some(i) => {
                assert(folded_names(self.available_databases@)[i as int] == folded(name@));
                assert(folded_names(self.available_databases@).contains(folded(name@)));
                let ghost dbs_before = self.available_databases@;
                self.available_databases.remove(i);
                proof {
                    assert(folded_names(self.available_databases@) =~= folded_names(
                        dbs_before,
                    ).remove(i as int));
                    assert forall|a: int, b: int|
                        0 <= a < b < self.available_databases@.len() implies #[trigger] folded_names(
                        self.available_databases@,
                    )[a] != #[trigger] folded_names(self.available_databases@)[b] by {
                        let a2 = if a < i {
                            a
                        } else {
                            a + 1
                        };
                        let b2 = if b < i {
                            b
                        } else {
                            b + 1
                        };
                        assert(folded_names(self.available_databases@)[a] == folded_names(
                            dbs_before,
                        )[a2]);
                        assert(folded_names(self.available_databases@)[b] == folded_names(
                            dbs_before,
                        )[b2]);
                    }
                    assert forall|j: int|
                        0 <= j < self.available_databases@.len() implies #[trigger] folded_names(
                        self.available_databases@,
                    )[j] != folded(name@) by {
                        let j2 = if j < i {
                            j
                        } else {
                            j + 1
                        };
                        assert(folded_names(self.available_databases@)[j] == folded_names(
                            dbs_before,
                        )[j2]);
                    }
                }
                Ok(())
            },
            None => {
                assert(!folded_names(self.available_databases@).contains(folded(name@)));
                Err(Error::NotFound(NotFound::Database { name: name.to_owned() }))
            },
        }
    }

    /// Lists the databases of this storage.
    pub fn list_databases(&self) -> (r: Vec<DatabaseRecord>)
        ensures
            r@.len() == self.available_databases@.len(),
            forall|i: int|
                0 <= i < r@.len() ==> #[trigger] r@[i].name@ == self.available_databases@[i].name@
                    && r@[i].schema@ == self.available_databases@[i].schema@,
    {
        let mut out: Vec<DatabaseRecord> = Vec::new();
        let mut i: usize = 0;
        while i < self.available_databases.len()
            invariant
                0 <= i <= self.available_databases@.len(),
                out@.len() == i,
                forall|j: int|
                    0 <= j < i ==> #[trigger] out@[j].name@
                        == self.available_databases@[j].name@ && out@[j].schema@
                        == self.available_databases@[j].schema@,
            decreases self.available_databases@.len() - i,
        {
            out.push(self.available_databases[i].duplicate());
            i += 1;
        }
        out
    }

    /// Lists the schema names in use by the databases, each once.
    pub fn list_available_schemas(&self) -> (r: Vec<SchemaName>)
        ensures
            forall|a: int, b: int| 0 <= a < b < r@.len() ==> #[trigger] r@[a]@ != #[trigger] r@[b]@,
            schemas_cover(self.available_databases@, r@),
    {
        let mut out: Vec<SchemaName> = Vec::new();
        let mut i: usize = 0;
        while i < self.available_databases.len()
            invariant
                0 <= i <= self.available_databases@.len(),
                forall|a: int, b: int|
                    0 <= a < b < out@.len() ==> #[trigger] out@[a]@ != #[trigger] out@[b]@,
                forall|k: int|
                    #![trigger out@[k]]
                    0 <= k < out@.len() ==> exists|j: int|
                        0 <= j < self.available_databases@.len() && (
                        #[trigger] self.available_databases@[j]).schema@ == out@[k]@,
                forall|j: int|
                    0 <= j < i ==> exists|k: int|
                        0 <= k < out@.len() && (#[trigger] self.available_databases@[j]).schema@
                            == out@[k]@,
                i >= self.available_databases@.len() ==> schemas_cover(
                    self.available_databases@,
                    out@,
                ),
            decreases self.available_databases@.len() - i,
        {
            let candidate = &self.available_databases[i].schema;
            let mut seen = false;
            let mut k: usize = 0;
            while k < out.len() && !seen
                invariant
                    0 <= k <= out@.len(),
                    seen ==> exists|m: int| 0 <= m < out@.len() && #[trigger] out@[m]@ == candidate@,
                    !seen ==> forall|m: int| 0 <= m < k ==> #[trigger] out@[m]@ != candidate@,
                decreases out@.len() - k, (if seen {
                    0int
                } else {
                    1int
                }),
            {
                if out[k].same_as(candidate) {
                    seen = true;
                } else {
                    k += 1;
                }
            }
            let ghost out_before = out@;
            if !seen {
                out.push(candidate.duplicate());
                proof {
                    assert forall|a: int, b: int|
                        0 <= a < b < out@.len() implies #[trigger] out@[a]@ != #[trigger] out@[b]@ by {
                        if b < out@.len() - 1 {
                            assert(out@[a] == out_before[a]);
                            assert(out@[b] == out_before[b]);
                        } else {
                            assert(out@[a] == out_before[a]);
                        }
                    }
                    assert(out@.last()@ == self.available_databases@[i as int].schema@);
                }
            }
            proof {
                assert forall|k: int|
                    #![trigger out@[k]]
                    0 <= k < out@.len() implies exists|j: int|
                    0 <= j < self.available_databases@.len() && (
                    #[trigger] self.available_databases@[j]).schema@ == out@[k]@ by {
                    if k < out_before.len() {
                        assert(out@[k] == out_before[k]);
                        let j0 = choose|j: int|
                            0 <= j < self.available_databases@.len() && (
                            #[trigger] self.available_databases@[j]).schema@ == out_before[k]@;
                        assert(self.available_databases@[j0].schema@ == out@[k]@);
                    } else {
                        assert(self.available_databases@[i as int].schema@ == out@[k]@);
                    }
                }
                assert forall|j: int|
                    0 <= j < i + 1 implies exists|k: int|
                    0 <= k < out@.len() && (#[trigger] self.available_databases@[j]).schema@
                        == out@[k]@ by {
                    if j < i {
                        let k0 = choose|k: int|
                            0 <= k < out_before.len() && self.available_databases@[j].schema@
                                == out_before[k]@;
                        assert(out@[k0] == out_before[k0]);
                        assert(self.available_databases@[j].schema@ == out@[k0]@);
                    } else {
                        if seen {
                            let m = choose|m: int|
                                0 <= m < out_before.len() && out_before[m]@ == candidate@;
                            assert(out@[m] == out_before[m]);
                            assert(self.available_databases@[j].schema@ == out@[m]@);
                        } else {
                            assert(self.available_databases@[j].schema@ == out@[out@.len() - 1]@);
                        }
                    }
                }
            }
            i += 1;
        }
        out
    }

    /// Records that database `name`'s trees are open. A database's trees
    /// are opened once: the first call records the name and returns
    /// true, every later call with the same name (compared
    /// case-insensitively) reuses the shared handle and changes nothing.
    pub fn open_roots(&mut self, name: &str) -> (r: bool)
        requires
            old(self).wf(),
        ensures
            final(self).wf(),
            final(self).schemas == old(self).schemas,
            final(self).available_databases == old(self).available_databases,
            final(self).id == old(self).id,
            r == !roots_contain(old(self).open_roots@, name@),
            roots_contain(final(self).open_roots@, name@),
            !r ==> *final(self) == *old(self),
            r ==> {
                &&& final(self).open_roots@.len() == old(self).open_roots@.len() + 1
                &&& final(self).open_roots@.last()@ == name@
                &&& forall|j: int|
                    0 <= j < old(self).open_roots@.len() ==> #[trigger] final(self).open_roots@[j]
                        == old(self).open_roots@[j]
            },
    {
        let mut k: usize = 0;
        while k < self.open_roots.len()
            invariant
                0 <= k <= self.open_roots@.len(),
                *self == *old(self),
                old(self).wf(),
                forall|j: int|
                    0 <= j < k ==> folded((#[trigger] self.open_roots@[j])@) != folded(name@),
            decreases self.open_roots@.len() - k,
        {
            if names_equal_folded(self.open_roots[k].as_str(), name) {
                assert(roots_contain(self.open_roots@, name@));
                return false;
            }
            k += 1;
        }
        assert(!roots_contain(self.open_roots@, name@));
        self.open_roots.push(name.to_owned());
        proof {
            assert(roots_contain(self.open_roots@, name@)) by {
                assert(folded(self.open_roots@.last()@) == folded(name@));
            }
            assert forall|a: int, b: int|
                0 <= a < b < self.open_roots@.len() implies folded(
                (#[trigger] self.open_roots@[a])@,
            ) != folded((#[trigger] self.open_roots@[b])@) by {
                if b < self.open_roots@.len() - 1 {
                    assert(self.open_roots@[a] == old(self).open_roots@[a]);
                    assert(self.open_roots@[b] == old(self).open_roots@[b]);
                } else {
                    assert(self.open_roots@[a] == old(self).open_roots@[a]);
                }
            }
        }
        true
    }

    /// Replaces the cache of available databases from the admin
    /// database's records, keeping only records whose names do not
    /// collide under case folding.
    pub fn cache_available_databases(&mut self, entries: Vec<DatabaseRecord>)
        requires
            old(self).wf(),
        ensures
            final(self).wf(),
            final(self).schemas == old(self).schemas,
            final(self).id == old(self).id,
            final(self).open_roots == old(self).open_roots,
            records_match(final(self).available_databases@, dedup_records(entries@)),
    {
        let mut fresh: Vec<DatabaseRecord> = Vec::new();
        let mut i: usize = 0;
        proof {
            assert(entries@.take(0) =~= Seq::<DatabaseRecord>::empty());
            assert(records_match(fresh@, dedup_records(entries@.take(0))));
        }
        while i < entries.len()
            invariant
                0 <= i <= entries@.len(),
                records_match(fresh@, dedup_records(entries@.take(i as int))),
                forall|a: int, b: int|
                    0 <= a < b < fresh@.len() ==> #[trigger] folded_names(fresh@)[a]
                        != #[trigger] folded_names(fresh@)[b],
            decreases entries@.len() - i,
        {
            proof {
                assert(entries@.take(i + 1).drop_last() =~= entries@.take(i as int));
                assert(entries@.take(i + 1).last() == entries@[i as int]);
            }
            let candidate = &entries[i];
            let mut seen = false;
            let mut k: usize = 0;
            while k < fresh.len() && !seen
                invariant
                    0 <= k <= fresh@.len(),
                    seen ==> exists|m: int|
                        0 <= m < fresh@.len() && #[trigger] folded_names(fresh@)[m] == folded(
                            candidate.name@,
                        ),
                    !seen ==> forall|m: int|
                        0 <= m < k ==> #[trigger] folded_names(fresh@)[m] != folded(
                            candidate.name@,
                        ),
                decreases fresh@.len() - k, (if seen {
                    0int
                } else {
                    1int
                }),
            {
                if names_equal_folded(fresh[k].name.as_str(), candidate.name.as_str()) {
                    proof {
                        assert(folded_names(fresh@)[k as int] == folded(
                            fresh@[k as int].name@,
                        ));
                    }
                    seen = true;
                } else {
                    proof {
                        assert(folded_names(fresh@)[k as int] == folded(
                            fresh@[k as int].name@,
                        ));
                    }
                    k += 1;
                }
            }
            let ghost fresh_before = fresh@;
            let ghost prev = dedup_records(entries@.take(i as int));
            // The scan over the kept records agrees with the model's
            // membership test, since the two lists match name for name.
            proof {
                if seen {
                    let m = choose|m: int|
                        0 <= m < fresh_before.len() && folded_names(fresh_before)[m] == folded(
                            candidate.name@,
                        );
                    assert(folded_names(prev)[m] == folded(prev[m].name@));
                    assert(prev[m].name@ == fresh_before[m].name@);
                    assert(folded_names(fresh_before)[m] == folded(fresh_before[m].name@));
                    assert(folded_names(prev).contains(folded(candidate.name@)));
                } else {
                    if folded_names(prev).contains(folded(candidate.name@)) {
                        let m = choose|m: int|
                            0 <= m < prev.len() && folded_names(prev)[m] == folded(
                                candidate.name@,
                            );
                        assert(folded_names(fresh_before)[m] == folded(fresh_before[m].name@));
                        assert(folded_names(prev)[m] == folded(prev[m].name@));
                        assert(folded_names(fresh_before)[m] == folded(candidate.name@));
                        assert(false);
                    }
                    assert(!folded_names(prev).contains(folded(candidate.name@)));
                }
                assert(candidate.name@ == entries@[i as int].name@);
            }
            if !seen {
                fresh.push(candidate.duplicate());
                proof {
                    assert(folded_names(fresh@) =~= folded_names(fresh_before).push(
                        folded(candidate.name@),
                    ));
                    assert forall|a: int, b: int|
                        0 <= a < b < fresh@.len() implies #[trigger] folded_names(fresh@)[a]
                        != #[trigger] folded_names(fresh@)[b] by {
                        if b < fresh@.len() - 1 {
                            assert(folded_names(fresh@)[a] == folded_names(fresh_before)[a]);
                            assert(folded_names(fresh@)[b] == folded_names(fresh_before)[b]);
                        } else {
                            assert(folded_names(fresh@)[a] == folded_names(fresh_before)[a]);
                        }
                    }
                    assert(dedup_records(entries@.take(i + 1)) == prev.push(entries@[i as int]));
                    assert(records_match(fresh@, dedup_records(entries@.take(i + 1)))) by {
                        assert forall|j: int|
                            0 <= j < fresh@.len() implies (#[trigger] fresh@[j]).name@
                            == dedup_records(entries@.take(i + 1))[j].name@ && fresh@[j].schema@
                            == dedup_records(entries@.take(i + 1))[j].schema@ by {
                            if j < fresh@.len() - 1 {
                                assert(fresh@[j] == fresh_before[j]);
                                assert(dedup_records(entries@.take(i + 1))[j] == prev[j]);
                            } else {
                                assert(dedup_records(entries@.take(i + 1))[j] == entries@[i as int]);
                            }
                        }
                    }
                }
            } else {
                proof {
                    assert(dedup_records(entries@.take(i + 1)) == prev);
                }
            }
            i += 1;
        }
        proof {
            assert(entries@.take(entries@.len() as int) =~= entries@);
        }
        self.available_databases = fresh;
    }
}


/// Opens databases of one schema: the stored declaration ready to
/// build database instances from.
#[derive(Debug)]
pub struct StorageSchemaOpener<DB: Schema> {
    /// The schema's collections and views.
    pub schematic: Schematic,
    /// Ties the opener to its schema type.
    pub schema_marker: core::marker::PhantomData<DB>,
}

impl<DB: Schema> StorageSchemaOpener<DB> {
    /// Builds an opener from the schema's declaration.
    pub fn new() -> (r: Result<Self, Error>)
    {
        let schematic = match DB::schematic() {
            Ok(s) => s,
            Err(e) => {
                return Err(e);
            },
        };
        Ok(StorageSchemaOpener { schematic, schema_marker: core::marker::PhantomData })
    }

    /// The schema's declaration.
    pub fn schematic(&self) -> (r: &Schematic)
        ensures
            r == &self.schematic,
    {
        &self.schematic
    }

    /// Opens the database named `name` under this opener's schema,
    /// ready for use: its collections and views declared and empty.
    pub fn open(&self, name: &str) -> (r: Result<crate::store::Database, Error>)
        requires
            self.schematic.wf(),
        ensures
            match r {
                Ok(db) => db.wf() && db.name@ == name@,
                Err(_) => false,
            },
    {
        Ok(crate::store::Database::new(name, &self.schematic))
    }
}

} // verus!
