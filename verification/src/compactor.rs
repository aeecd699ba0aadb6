//! The compactor: background rewrites of individual trees, of a whole
//! collection's trees, or of every tree of a database. A rewrite goes
//! to a fresh file that is atomically swapped into place, so an
//! interruption before the swap leaves the original contents intact.

use vstd::prelude::*;

use crate::error::Error;
use crate::names::{document_tree_name, view_document_map_tree_name, view_entries_tree_name,
    view_invalidated_docs_tree_name, view_versions_tree_name, CollectionName, CollectionNameView};
use crate::names::string_equal;
use crate::store::Database;
use crate::tasks::{Task, TaskManager, TaskView};

verus! {

/// What a compaction run targets.
#[derive(Debug)]
pub enum Target {
    /// One versioned tree, by tree-file name.
    VersionedTree(String),
    /// One unversioned tree, by tree-file name.
    UnversionedTree(String),
    /// Every tree belonging to one collection.
    Collection(CollectionName),
    /// The key/value tree.
    KeyValue,
    /// Every tree of the database.
    Database,
}

/// The mathematical value of a compaction target.
pub enum TargetView {
    VersionedTree(Seq<char>),
    UnversionedTree(Seq<char>),
    Collection(CollectionNameView),
    KeyValue,
    Database,
}

impl View for Target {
    type V = TargetView;

    open spec fn view(&self) -> TargetView {
        match self {
            Target::VersionedTree(n) => TargetView::VersionedTree(n@),
            Target::UnversionedTree(n) => TargetView::UnversionedTree(n@),
            Target::Collection(c) => TargetView::Collection(c@),
            Target::KeyValue => TargetView::KeyValue,
            Target::Database => TargetView::Database,
        }
    }
}

/// Whether a target names a single tree file, directly compactable
/// without fanning out.
pub open spec fn is_tree_target(t: TargetView) -> bool {
    ||| t is VersionedTree
    ||| t is UnversionedTree
    ||| t is KeyValue
}

impl Target {
    /// Whether two targets name the same trees.
    pub fn same_as(&self, other: &Target) -> (r: bool)
        ensures
            r == (self@ == other@),
    {
        let r = match (self, other) {
            (Target::VersionedTree(a), Target::VersionedTree(b)) => string_equal(a, b),
            (Target::UnversionedTree(a), Target::UnversionedTree(b)) => string_equal(a, b),
            (Target::Collection(a), Target::Collection(b)) => a.same_as(b),
            (Target::KeyValue, Target::KeyValue) => true,
            (Target::Database, Target::Database) => true,
            _ => false,
        };
        proof {
            if r {
                assert(self@ == other@);
            } else {
                assert(self@ != other@);
            }
        }
        r
    }

    /// An identical copy of this target.
    pub fn duplicate(&self) -> (r: Self)
        ensures
            r@ == self@,
    {
        match self {
            Target::VersionedTree(n) => Target::VersionedTree(n.clone()),
            Target::UnversionedTree(n) => Target::UnversionedTree(n.clone()),
            Target::Collection(c) => Target::Collection(c.duplicate()),
            Target::KeyValue => Target::KeyValue,
            Target::Database => Target::Database,
        }
    }
}

/// The key of a compaction job.
#[derive(Debug)]
pub struct Compaction {
    /// The database being compacted.
    pub database_name: String,
    /// What is being compacted.
    pub target: Target,
}

/// The mathematical value of a compaction key.
pub struct CompactionView {
    pub database_name: Seq<char>,
    pub target: TargetView,
}

impl View for Compaction {
    type V = CompactionView;

    open spec fn view(&self) -> CompactionView {
        CompactionView { database_name: self.database_name@, target: self.target@ }
    }
}

impl Compaction {
    /// Whether two compaction keys coincide.
    pub fn same_as(&self, other: &Compaction) -> (r: bool)
        ensures
            r == (self@ == other@),
    {
        let r = self.database_name == other.database_name && self.target.same_as(&other.target);
        proof {
            if r {
                assert(self@ == other@);
            } else {
                assert(self@ != other@);
            }
        }
        r
    }

    /// An identical copy of this compaction key.
    pub fn duplicate(&self) -> (r: Self)
        ensures
            r@ == self@,
    {
        Compaction { database_name: self.database_name.clone(), target: self.target.duplicate() }
    }
}

/// A compaction job: the database it runs against and its target.
#[derive(Debug)]
pub struct Compactor {
    /// The database the compaction runs against.
    pub database: Database,
    /// What the job compacts.
    pub compaction: Compaction,
}

impl Compactor {
    /// A compaction job for `target` against `database`.
    pub fn target(database: Database, target: Target) -> (r: Self)
        ensures
            r.compaction.database_name@ == database.name@,
            r.compaction.target@ == target@,
            r.database == database,
    {
        let database_name = database.name.clone();
        Compactor { compaction: Compaction { database_name, target }, database }
    }

    /// A compaction job for one collection's trees.
    pub fn collection(database: Database, collection: CollectionName) -> (r: Self)
        ensures
            r.compaction.database_name@ == database.name@,
            r.compaction.target@ == TargetView::Collection(collection@),
            r.database == database,
    {
        Self::target(database, Target::Collection(collection))
    }

    /// A compaction job for every tree of the database.
    pub fn database(database: Database) -> (r: Self)
        ensures
            r.compaction.database_name@ == database.name@,
            r.compaction.target@ == TargetView::Database,
            r.database == database,
    {
        Self::target(database, Target::Database)
    }

    /// A compaction job for the key/value tree.
    pub fn keyvalue(database: Database) -> (r: Self)
        ensures
            r.compaction.database_name@ == database.name@,
            r.compaction.target@ == TargetView::KeyValue,
            r.database == database,
    {
        Self::target(database, Target::KeyValue)
    }

    /// The job's coalescing key.
    pub fn key(&self) -> (r: Task)
        ensures
            r@ == TaskView::Compaction(self.compaction@),
    {
        Task::Compaction(self.compaction.duplicate())
    }

    /// Runs the compaction against the job's database.
    pub fn execute(&mut self, tasks: &mut TaskManager) -> (r: Result<(), Error>)
        requires
            old(self).database.wf(),
            old(tasks).wf(),
        ensures
            final(self).database.wf(),
            final(tasks).wf(),
            database_contents_unchanged(&final(self).database, &old(self).database),
            final(self).compaction == old(self).compaction,
            r is Ok,
    {
        let target = self.compaction.target.duplicate();
        compact_target(&mut self.database, tasks, &target, false)
    }
}

/// The logical contents of a database are untouched by compaction:
/// every collection's documents, every view's rows, and the log.
pub open spec fn database_contents_unchanged(now: &Database, before: &Database) -> bool {
    &&& now.name == before.name
    &&& now.models().len() == before.models().len()
    &&& forall|i: int|
        0 <= i < now.models().len() ==> {
            &&& (#[trigger] now.models()[i]).name == before.models()[i].name
            &&& now.models()[i].docs == before.models()[i].docs
            &&& now.models()[i].max_id == before.models()[i].max_id
        }
    &&& now.views@.len() == before.views@.len()
    &&& forall|i: int|
        0 <= i < now.views@.len() ==> {
            &&& (#[trigger] now.views@[i]).name == before.views@[i].name
            &&& now.views@[i].version == before.views@[i].version
            &&& now.views@[i].entries == before.views@[i].entries
            &&& now.views@[i].document_map == before.views@[i].document_map
            &&& now.views@[i].invalidated == before.views@[i].invalidated
        }
    &&& now.transactions == before.transactions
}

/// Collects the compaction targets of one collection: its document
/// tree, the shared view-version tree, and, for each of the
/// collection's views, the entries, key-map and invalidation trees.
pub fn gather_collection_trees(
    database: &Database,
    collection: &CollectionName,
    schematic: &crate::schema::Schematic,
    trees: &mut Vec<Target>,
)
    ensures
        ({
            let base = old(trees)@.len() as int;
            let decls = schematic.views_view().filter(
                crate::schema::decl_in_collection(collection@),
            );
            &&& final(trees)@.len() == base + 2 + 3 * decls.len()
            &&& forall|i: int| 0 <= i < base ==> #[trigger] final(trees)@[i] == old(trees)@[i]
            &&& final(trees)@[base]@ == TargetView::VersionedTree(
                crate::names::document_tree_name_spec(collection@),
            )
            &&& final(trees)@[base + 1]@ == TargetView::UnversionedTree(
                crate::names::view_versions_tree_name_spec(collection@),
            )
            &&& forall|v: int|
                0 <= v < decls.len() ==> {
                    &&& (#[trigger] final(trees)@[base + 2 + 3 * v])@ == TargetView::UnversionedTree(
                        crate::names::view_entries_tree_name_spec(decls[v].name),
                    )
                    &&& final(trees)@[base + 2 + 3 * v + 1]@ == TargetView::UnversionedTree(
                        crate::names::view_document_map_tree_name_spec(decls[v].name),
                    )
                    &&& final(trees)@[base + 2 + 3 * v + 2]@ == TargetView::UnversionedTree(
                        crate::names::view_invalidated_docs_tree_name_spec(decls[v].name),
                    )
                }
        }),
{
    let ghost base = trees@.len() as int;
    let ghost decls = schematic.views_view().filter(
        crate::schema::decl_in_collection(collection@),
    );
    trees.push(Target::VersionedTree(document_tree_name(collection)));
    trees.push(Target::UnversionedTree(view_versions_tree_name(collection)));
    let views = schematic.views_in_collection(collection);
    proof {
        assert(crate::schema::view_names_view(views@) == crate::schema::decl_names(decls));
    }
    let mut i: usize = 0;
    while i < views.len()
        invariant
            0 <= i <= views@.len(),
            base == old(trees)@.len(),
            crate::schema::view_names_view(views@) == crate::schema::decl_names(decls),
            views@.len() == decls.len(),
            trees@.len() == base + 2 + 3 * i,
            forall|j: int| 0 <= j < base ==> #[trigger] trees@[j] == old(trees)@[j],
            trees@[base]@ == TargetView::VersionedTree(
                crate::names::document_tree_name_spec(collection@),
            ),
            trees@[base + 1]@ == TargetView::UnversionedTree(
                crate::names::view_versions_tree_name_spec(collection@),
            ),
            forall|v: int|
                0 <= v < i ==> {
                    &&& (#[trigger] trees@[base + 2 + 3 * v])@ == TargetView::UnversionedTree(
                        crate::names::view_entries_tree_name_spec(decls[v].name),
                    )
                    &&& trees@[base + 2 + 3 * v + 1]@ == TargetView::UnversionedTree(
                        crate::names::view_document_map_tree_name_spec(decls[v].name),
                    )
                    &&& trees@[base + 2 + 3 * v + 2]@ == TargetView::UnversionedTree(
                        crate::names::view_invalidated_docs_tree_name_spec(decls[v].name),
                    )
                },
        decreases views@.len() - i,
    {
        let name = &views[i];
        proof {
            assert(crate::schema::view_names_view(views@)[i as int] == views@[i as int]@);
            assert(crate::schema::decl_names(decls)[i as int] == decls[i as int].name);
            assert(name@ == decls[i as int].name);
        }
        trees.push(Target::UnversionedTree(view_entries_tree_name(name)));
        trees.push(Target::UnversionedTree(view_document_map_tree_name(name)));
        trees.push(Target::UnversionedTree(view_invalidated_docs_tree_name(name)));
        i += 1;
    }
}

/// Every target `gather_collection_trees` appends is a single tree.
proof fn lemma_gathered_are_trees(
    before: Seq<Target>,
    after: Seq<Target>,
    decls_len: int,
)
    requires
        decls_len >= 0,
        after.len() == before.len() + 2 + 3 * decls_len,
        forall|i: int| 0 <= i < before.len() ==> #[trigger] after[i] == before[i],
        after[before.len() as int]@ is VersionedTree,
        after[before.len() as int + 1]@ is UnversionedTree,
        forall|v: int|
            0 <= v < decls_len ==> {
                &&& (#[trigger] after[before.len() as int + 2 + 3 * v])@ is UnversionedTree
                &&& after[before.len() as int + 2 + 3 * v + 1]@ is UnversionedTree
                &&& after[before.len() as int + 2 + 3 * v + 2]@ is UnversionedTree
            },
        forall|j: int| 0 <= j < before.len() ==> is_tree_target((#[trigger] before[j])@),
    ensures
        forall|j: int| 0 <= j < after.len() ==> is_tree_target((#[trigger] after[j])@),
{
    let base = before.len() as int;
    assert forall|j: int| 0 <= j < after.len() implies is_tree_target((#[trigger] after[j])@) by {
        if j < base {
            assert(after[j] == before[j]);
        } else if j == base || j == base + 1 {
        } else {
            let off = j - base - 2;
            vstd::arithmetic::div_mod::lemma_fundamental_div_mod(off, 3);
            vstd::arithmetic::div_mod::lemma_mod_division_less_than_divisor(off, 3);
            let v = off / 3;
            let r = off % 3;
            assert(off == 3 * v + r);
            assert(0 <= v < decls_len);
            if r == 0 {
                assert(after[base + 2 + 3 * v]@ is UnversionedTree);
            } else if r == 1 {
                assert(after[base + 2 + 3 * v + 1]@ is UnversionedTree);
            } else {
                assert(after[base + 2 + 3 * v + 2]@ is UnversionedTree);
            }
        }
    }
}

/// Compacts one tree of the database: the rewrite drops the tree's
/// reclaimable garbage and keeps its logical contents; when the run is
/// interrupted before the file swap, the original state is fully
/// intact and an I/O error surfaces.
pub fn compact_tree(database: &mut Database, name: &String, versioned: bool, interrupt_before_swap: bool) -> (r:
    Result<(), Error>)
    requires
        old(database).wf(),
    ensures
        final(database).wf(),
        database_contents_unchanged(final(database), old(database)),
        match r {
            Ok(()) => !interrupt_before_swap,
            Err(e) => interrupt_before_swap && e is Io && *final(database) == *old(database),
        },
{
    if interrupt_before_swap {
        // The rewrite never reached the atomic swap: the original file
        // is still in place, untouched.
        return Err(Error::Io);
    }
    // Document trees: match the name against each collection's tree.
    if versioned {
        let mut i: usize = 0;
        while i < database.collections.len()
            invariant
                old(database).wf(),
                !interrupt_before_swap,
                0 <= i <= database.collections@.len(),
                database.wf(),
                database_contents_unchanged(database, old(database)),
                database.views == old(database).views,
                database.kv_wasted == old(database).kv_wasted,
            decreases database.collections@.len() - i,
        {
            let tree = document_tree_name(&database.collections[i].name);
            if string_equal(&tree, name) {
                let ghost pre = *database;
                let coll = crate::store::element_mut(&mut database.collections, i);
                coll.wasted = 0;
                proof {
                    assert(database.collections@ == pre.collections@.update(
                        i as int,
                        database.collections@[i as int],
                    ));
                    assert(database.collections@[i as int].documents == pre.collections@[i as int].documents);
                    assert(database.collections@[i as int].name == pre.collections@[i as int].name);
                    assert(database.collections@[i as int].max_id == pre.collections@[i as int].max_id);
                    assert forall|a: int|
                        0 <= a < database.models().len() implies {
                        &&& (#[trigger] database.models()[a]).name == pre.models()[a].name
                        &&& database.models()[a].docs == pre.models()[a].docs
                        &&& database.models()[a].max_id == pre.models()[a].max_id
                        &&& database.collections@[a].wf()
                    } by {
                        if a != i {
                            assert(database.collections@[a] == pre.collections@[a]);
                        } else {
                            assert(database.collections@[a]@.docs =~= pre.collections@[a]@.docs);
                        }
                        assert(database.models()[a] == database.collections@[a]@);
                        assert(pre.models()[a] == pre.collections@[a]@);
                        assert(pre.collections@[a].wf());
                    }
                    assert forall|a: int, b: int|
                        0 <= a < b < database.models().len() implies (
                    #[trigger] database.models()[a]).name != (#[trigger] database.models()[b]).name
                        by {
                        assert(database.models()[a].name == pre.models()[a].name);
                        assert(database.models()[b].name == pre.models()[b].name);
                        assert(pre.models()[a].name != pre.models()[b].name);
                    }
                }
                return Ok(());
            }
            i += 1;
        }
        return Ok(());
    }
    // The key/value tree.
    let kv_name = "kv".to_owned();
    if string_equal(name, &kv_name) {
        database.kv_wasted = 0;
        proof {
            assert(database.collections == old(database).collections);
            assert(database.views == old(database).views);
            assert(database.transactions == old(database).transactions);
            assert(database.models() =~= old(database).models());
            assert(database.log() =~= old(database).log());
            assert(database.wf());
        }
        return Ok(());
    }
    // View trees: match the name against each view's tree files.
    let mut v: usize = 0;
    while v < database.views.len()
        invariant
            old(database).wf(),
            !interrupt_before_swap,
            0 <= v <= database.views@.len(),
            database.wf(),
            database_contents_unchanged(database, old(database)),
            database.collections == old(database).collections,
            database.kv_wasted == old(database).kv_wasted,
        decreases database.views@.len() - v,
    {
        let vname = &database.views[v].name;
        let entries_name = view_entries_tree_name(vname);
        let docmap_name = view_document_map_tree_name(vname);
        let invalidated_name = view_invalidated_docs_tree_name(vname);
        let matches_entries = string_equal(&entries_name, name);
        let matches_docmap = string_equal(&docmap_name, name);
        let matches_invalidated = string_equal(&invalidated_name, name);
        if matches_entries || matches_docmap || matches_invalidated {
            let ghost pre = *database;
            let view = crate::store::element_mut(&mut database.views, v);
            view.wasted = 0;
            proof {
                assert(database.views@ == pre.views@.update(v as int, database.views@[v as int]));
                assert(database.views@[v as int].entries == pre.views@[v as int].entries);
                assert(database.views@[v as int].document_map == pre.views@[v as int].document_map);
                assert(database.views@[v as int].invalidated == pre.views@[v as int].invalidated);
                assert(database.views@[v as int].name == pre.views@[v as int].name);
                assert(database.views@[v as int].version == pre.views@[v as int].version);
                assert(database.views@[v as int].wf()) by {
                    assert(pre.views@[v as int].wf());
                    assert(database.views@[v as int].rows() =~= pre.views@[v as int].rows());
                    assert(database.views@[v as int].docmap() =~= pre.views@[v as int].docmap());
                }
            }
            return Ok(());
        }
        v += 1;
    }
    Ok(())
}

/// Compacts one target: a single tree directly; a collection or the
/// whole database by fanning out one child job per tree through the
/// task manager and awaiting each.
pub fn compact_target(
    database: &mut Database,
    tasks: &mut TaskManager,
    target: &Target,
    interrupt_before_swap: bool,
) -> (r: Result<(), Error>)
    requires
        old(database).wf(),
        old(tasks).wf(),
    ensures
        final(database).wf(),
        final(tasks).wf(),
        database_contents_unchanged(final(database), old(database)),
        r is Ok <==> !interrupt_before_swap,
        interrupt_before_swap ==> r is Err && *final(database) == *old(database),
{
    match target {
        Target::VersionedTree(name) => compact_tree(database, name, true, interrupt_before_swap),
        Target::UnversionedTree(name) => compact_tree(database, name, false, interrupt_before_swap),
        Target::KeyValue => {
            let kv_name = "kv".to_owned();
            compact_tree(database, &kv_name, false, interrupt_before_swap)
        },
        Target::Collection(collection) => {
            if interrupt_before_swap {
                return Err(Error::Io);
            }
            let schematic = database_schematic(database);
            let mut trees: Vec<Target> = Vec::new();
            let ghost before = trees@;
            gather_collection_trees(database, collection, &schematic, &mut trees);
            proof {
                lemma_gathered_are_trees(
                    before,
                    trees@,
                    schematic.views_view().filter(
                        crate::schema::decl_in_collection(collection@),
                    ).len() as int,
                );
            }
            compact_trees(database, tasks, trees)
        },
        Target::Database => {
            if interrupt_before_swap {
                return Err(Error::Io);
            }
            let schematic = database_schematic(database);
            let mut trees: Vec<Target> = Vec::new();
            let mut i: usize = 0;
            while i < database.collections.len()
                invariant
                    old(database).wf(),
                    database.wf(),
                    0 <= i <= database.collections@.len(),
                    *database == *old(database),
                    forall|j: int| 0 <= j < trees@.len() ==> is_tree_target((#[trigger] trees@[j])@),
                decreases database.collections@.len() - i,
            {
                let cname = database.collections[i].name.duplicate();
                let ghost before = trees@;
                gather_collection_trees(database, &cname, &schematic, &mut trees);
                proof {
                    lemma_gathered_are_trees(
                        before,
                        trees@,
                        schematic.views_view().filter(
                            crate::schema::decl_in_collection(cname@),
                        ).len() as int,
                    );
                }
                i += 1;
            }
            trees.push(Target::KeyValue);
            compact_trees(database, tasks, trees)
        },
    }
}

/// Rebuilds the schematic a database was opened under, from its
/// collections and views.
fn database_schematic(database: &Database) -> (r: crate::schema::Schematic)
    requires
        database.wf(),
{
    let mut schematic = crate::schema::Schematic::new();
    let mut i: usize = 0;
    while i < database.collections.len()
        invariant
            database.wf(),
            0 <= i <= database.collections@.len(),
            schematic.wf(),
        decreases database.collections@.len() - i,
    {
        let name = database.collections[i].name.duplicate();
        let outcome = schematic.define_collection(name);
        match outcome {
            Ok(()) => {},
            Err(_) => {},
        }
        i += 1;
    }
    let mut v: usize = 0;
    while v < database.views.len()
        invariant
            database.wf(),
            0 <= v <= database.views@.len(),
            schematic.wf(),
        decreases database.views@.len() - v,
    {
        let name = database.views[v].name.duplicate();
        let version = database.views[v].version;
        let outcome = schematic.define_view(name, version);
        match outcome {
            Ok(()) => {},
            Err(_) => {},
        }
        v += 1;
    }
    schematic
}

/// Enqueues one compaction job per tree target -- identical targets
/// coalesce in the task manager -- then runs and completes each,
/// awaiting the whole fan-out. Only tree-level targets are accepted:
/// a nested collection or database target is an internal error.
pub fn compact_trees(database: &mut Database, tasks: &mut TaskManager, targets: Vec<Target>) -> (r:
    Result<(), Error>)
    requires
        old(database).wf(),
        old(tasks).wf(),
    ensures
        final(database).wf(),
        final(tasks).wf(),
        database_contents_unchanged(final(database), old(database)),
        (forall|i: int| 0 <= i < targets@.len() ==> is_tree_target((#[trigger] targets@[i])@))
            ==> r is Ok,
        r matches Err(e) ==> e is Internal && exists|i: int|
            0 <= i < targets@.len() && !is_tree_target((#[trigger] targets@[i])@),
{
    // Enqueue all the jobs.
    let mut i: usize = 0;
    while i < targets.len()
        invariant
            old(database).wf(),
            *database == *old(database),
            tasks.wf(),
            0 <= i <= targets@.len(),
        decreases targets@.len() - i,
    {
        let key = Task::Compaction(
            Compaction {
                database_name: database.name.clone(),
                target: targets[i].duplicate(),
            },
        );
        tasks.enqueue(key);
        i += 1;
    }
    // Run them and deliver each result to its waiters.
    let mut k: usize = 0;
    while k < targets.len()
        invariant
            old(database).wf(),
            database.wf(),
            database_contents_unchanged(database, old(database)),
            tasks.wf(),
            0 <= k <= targets@.len(),
        decreases targets@.len() - k,
    {
        let ghost db_mid = *database;
        let step = match &targets[k] {
            Target::VersionedTree(name) => compact_tree(database, name, true, false),
            Target::UnversionedTree(name) => compact_tree(database, name, false, false),
            Target::KeyValue => {
                let kv_name = "kv".to_owned();
                compact_tree(database, &kv_name, false, false)
            },
            Target::Collection(_) => Err(Error::Internal),
            Target::Database => Err(Error::Internal),
        };
        proof {
            lemma_contents_unchanged_transitive(database, &db_mid, old(database));
        }
        match step {
            Ok(()) => {},
            Err(e) => {
                proof {
                    // Only a nested target errs here: a tree-level one
                    // compacts without interruption.
                    assert(!is_tree_target(targets@[k as int]@));
                    assert(e is Internal);
                }
                return Err(e);
            },
        }
        let key = Task::Compaction(
            Compaction {
                database_name: database.name.clone(),
                target: targets[k].duplicate(),
            },
        );
        tasks.complete(&key);
        k += 1;
    }
    Ok(())
}

/// Logical-contents preservation composes.
proof fn lemma_contents_unchanged_transitive(c: &Database, b: &Database, a: &Database)
    requires
        database_contents_unchanged(c, b),
        database_contents_unchanged(b, a),
    ensures
        database_contents_unchanged(c, a),
{
}

} // verus!
