//! The task manager: keyed background jobs. Jobs with equal keys that
//! are pending or running coalesce into one execution whose result is
//! delivered to every waiter.

use vstd::prelude::*;

use crate::compactor::{Compaction, CompactionView};
use crate::names::{ViewName, ViewNameView};
use crate::view::saturating_add;

verus! {

/// The key of an integrity-scan job: one per database and view.
#[derive(Debug)]
pub struct IntegrityScan {
    /// The database being scanned.
    pub database: String,
    /// The view being scanned.
    pub view: ViewName,
}

/// The mathematical value of an integrity-scan key.
pub struct IntegrityScanView {
    pub database: Seq<char>,
    pub view: ViewNameView,
}

impl View for IntegrityScan {
    type V = IntegrityScanView;

    open spec fn view(&self) -> IntegrityScanView {
        IntegrityScanView { database: self.database@, view: self.view@ }
    }
}

/// The key of a mapper job: one per database and view.
#[derive(Debug)]
pub struct ViewMapping {
    /// The database whose view is mapped.
    pub database: String,
    /// The view being mapped.
    pub view: ViewName,
}

/// The mathematical value of a mapper-job key.
pub struct ViewMappingView {
    pub database: Seq<char>,
    pub view: ViewNameView,
}

impl View for ViewMapping {
    type V = ViewMappingView;

    open spec fn view(&self) -> ViewMappingView {
        ViewMappingView { database: self.database@, view: self.view@ }
    }
}

/// A unit of background work, uniquely identified so that concurrent
/// submissions coalesce.
#[derive(Debug)]
pub enum Task {
    /// An integrity scan of one view.
    IntegrityScan(IntegrityScan),
    /// A mapper run over one view's stale documents.
    ViewMap(ViewMapping),
    /// A compaction of one target.
    Compaction(Compaction),
}

/// The mathematical value of a task key.
pub enum TaskView {
    IntegrityScan(IntegrityScanView),
    ViewMap(ViewMappingView),
    Compaction(CompactionView),
}

impl View for Task {
    type V = TaskView;

    open spec fn view(&self) -> TaskView {
        match self {
            Task::IntegrityScan(s) => TaskView::IntegrityScan(s@),
            Task::ViewMap(m) => TaskView::ViewMap(m@),
            Task::Compaction(c) => TaskView::Compaction(c@),
        }
    }
}

impl Task {
    /// Whether two tasks carry the same key.
    pub fn same_key(&self, other: &Task) -> (r: bool)
        ensures
            r == (self@ == other@),
    {
        let r = match (self, other) {
            (Task::IntegrityScan(a), Task::IntegrityScan(b)) => a.database == b.database
                && a.view.same_as(&b.view),
            (Task::ViewMap(a), Task::ViewMap(b)) => a.database == b.database && a.view.same_as(
                &b.view,
            ),
            (Task::Compaction(a), Task::Compaction(b)) => a.same_as(b),
            _ => false,
        };
        proof {
            if r {
                assert(self@ == other@);
            } else {
                assert(self@ != other@);
            }
        }
        r
    }

    /// An identical copy of the job key.
    pub fn duplicate(&self) -> (r: Self)
        ensures
            r@ == self@,
    {
        match self {
            Task::IntegrityScan(s) => Task::IntegrityScan(
                IntegrityScan { database: s.database.clone(), view: s.view.duplicate() },
            ),
            Task::ViewMap(m) => Task::ViewMap(
                ViewMapping { database: m.database.clone(), view: m.view.duplicate() },
            ),
            Task::Compaction(c) => Task::Compaction(c.duplicate()),
        }
    }
}

/// Whether a job has started running.
#[derive(Clone, Copy, Debug, PartialEq, Eq, Structural)]
pub enum JobStatus {
    /// Enqueued, not yet picked up by a worker.
    Pending,
    /// Picked up by a worker.
    Running,
}

/// One entry of the job table: a key, its state, and how many handles
/// await its result.
#[derive(Debug)]
pub struct JobEntry {
    /// The job's key.
    pub key: Task,
    /// Whether the job is pending or running.
    pub status: JobStatus,
    /// The number of handles awaiting the job's result.
    pub waiters: u64,
}

/// The mathematical value of a job entry.
pub struct JobEntryView {
    pub key: TaskView,
    pub status: JobStatus,
    pub waiters: u64,
}

impl View for JobEntry {
    type V = JobEntryView;

    open spec fn view(&self) -> JobEntryView {
        JobEntryView { key: self.key@, status: self.status, waiters: self.waiters }
    }
}

/// The mathematical values of the job table.
pub open spec fn jobs_view(js: Seq<JobEntry>) -> Seq<JobEntryView> {
    js.map_values(|j: JobEntry| j@)
}

/// Whether the job table holds an entry for `key`.
pub open spec fn has_job(js: Seq<JobEntryView>, key: TaskView) -> bool {
    exists|i: int| 0 <= i < js.len() && (#[trigger] js[i]).key == key
}

/// The index of `key`'s entry.
pub open spec fn job_index(js: Seq<JobEntryView>, key: TaskView) -> int {
    choose|i: int| 0 <= i < js.len() && (#[trigger] js[i]).key == key
}

/// What one enqueue does to the job table: a pending or running entry
/// with the same key gains one waiter and no new execution appears; a
/// fresh key gets one pending entry with one waiter.
pub open spec fn enqueue_spec(js: Seq<JobEntryView>, key: TaskView) -> Seq<JobEntryView> {
    if has_job(js, key) {
        let i = job_index(js, key);
        js.update(
            i,
            JobEntryView {
                key: js[i].key,
                status: js[i].status,
                waiters: crate::store::sat_add_spec(js[i].waiters, 1),
            },
        )
    } else {
        js.push(JobEntryView { key, status: JobStatus::Pending, waiters: 1 })
    }
}

/// `n` enqueues of the same key, one after another.
pub open spec fn enqueue_n(js: Seq<JobEntryView>, key: TaskView, n: nat) -> Seq<JobEntryView>
    decreases n,
{
    if n == 0 {
        js
    } else {
        enqueue_spec(enqueue_n(js, key, (n - 1) as nat), key)
    }
}

/// The bounded pool of background workers and its job table.
#[derive(Debug)]
pub struct TaskManager {
    /// The pending and running jobs, at most one entry per key.
    pub jobs: Vec<JobEntry>,
    /// The number of worker threads the pool was configured with.
    pub worker_count: u64,
    /// How many executions have been started, ever.
    pub executions_started: u64,
}

impl TaskManager {
    /// The job table as mathematical values.
    pub open spec fn table(&self) -> Seq<JobEntryView> {
        jobs_view(self.jobs@)
    }

    /// Well-formedness: at most one entry per key.
    pub open spec fn wf(&self) -> bool {
        forall|a: int, b: int|
            0 <= a < b < self.table().len() ==> (#[trigger] self.table()[a]).key != (
            #[trigger] self.table()[b]).key
    }

    /// A manager with `worker_count` workers and no jobs.
    pub fn new(worker_count: u64) -> (r: Self)
        ensures
            r.wf(),
            r.table() == Seq::<JobEntryView>::empty(),
            r.worker_count == worker_count,
            r.executions_started == 0,
    {
        let r = TaskManager { jobs: Vec::new(), worker_count, executions_started: 0 };
        proof {
            assert(r.table() =~= Seq::<JobEntryView>::empty());
        }
        r
    }

    /// Enqueues a job: a key already pending or running coalesces into
    /// the existing entry, gaining one more waiter; only a fresh key
    /// creates a new (single) pending entry. No execution is started
    /// here.
    pub fn enqueue(&mut self, key: Task) -> (r: usize)
        requires
            old(self).wf(),
        ensures
            final(self).wf(),
            final(self).table() == enqueue_spec(old(self).table(), key@),
            final(self).executions_started == old(self).executions_started,
            final(self).worker_count == old(self).worker_count,
            r < final(self).table().len() && final(self).table()[r as int].key == key@,
    {
        let ghost old_table = self.table();
        let mut i: usize = 0;
        let mut found = false;
        while i < self.jobs.len() && !found
            invariant
                0 <= i <= self.jobs@.len(),
                *self == *old(self),
                old(self).wf(),
                old_table == self.table(),
                found ==> i < self.table().len() && self.table()[i as int].key == key@,
                !found ==> forall|j: int| 0 <= j < i ==> (#[trigger] self.table()[j]).key != key@,
            decreases self.jobs@.len() - i, (if found {
                0int
            } else {
                1int
            }),
        {
            if self.jobs[i].key.same_key(&key) {
                found = true;
            } else {
                i += 1;
            }
        }
        if found {
            proof {
                lemma_job_index(old_table, i as int);
            }
            let ghost jobs_before = self.jobs@;
            let entry = crate::store::element_mut(&mut self.jobs, i);
            entry.waiters = saturating_add(entry.waiters, 1);
            proof {
                assert(self.table() =~= enqueue_spec(old_table, key@));
                assert forall|a: int, b: int|
                    0 <= a < b < self.table().len() implies (#[trigger] self.table()[a]).key != (
                #[trigger] self.table()[b]).key by {
                    assert(self.table()[a].key == old_table[a].key);
                    assert(self.table()[b].key == old_table[b].key);
                }
            }
            i
        } else {
            let r = self.jobs.len();
            self.jobs.push(JobEntry { key, status: JobStatus::Pending, waiters: 1 });
            proof {
                assert(self.table() =~= enqueue_spec(old_table, key@));
                assert forall|a: int, b: int|
                    0 <= a < b < self.table().len() implies (#[trigger] self.table()[a]).key != (
                #[trigger] self.table()[b]).key by {
                    if b < self.table().len() - 1 {
                        assert(self.table()[a].key == old_table[a].key);
                        assert(self.table()[b].key == old_table[b].key);
                    } else {
                        assert(self.table()[a].key == old_table[a].key);
                    }
                }
            }
            r
        }
    }

    /// Hands the first pending job to a worker, marking it running and
    /// counting one started execution; a job is started at most once.
    pub fn next_pending(&mut self) -> (r: Option<Task>)
        requires
            old(self).wf(),
        ensures
            final(self).wf(),
            final(self).worker_count == old(self).worker_count,
            match r {
                Some(task) => {
                    &&& exists|i: int|
                        {
                            &&& 0 <= i < old(self).table().len()
                            &&& (#[trigger] old(self).table()[i]).status == JobStatus::Pending
                            &&& old(self).table()[i].key == task@
                            &&& final(self).table() == old(self).table().update(
                                i,
                                JobEntryView {
                                    key: old(self).table()[i].key,
                                    status: JobStatus::Running,
                                    waiters: old(self).table()[i].waiters,
                                },
                            )
                        }
                    &&& final(self).executions_started == crate::store::sat_add_spec(
                        old(self).executions_started as u64,
                        1,
                    )
                },
                None => *final(self) == *old(self) && forall|i: int|
                    0 <= i < old(self).table().len() ==> (#[trigger] old(self).table()[i]).status
                        != JobStatus::Pending,
            },
    {
        let ghost old_table = self.table();
        let mut i: usize = 0;
        while i < self.jobs.len()
            invariant
                0 <= i <= self.jobs@.len(),
                *self == *old(self),
                old(self).wf(),
                old_table == self.table(),
                forall|j: int|
                    0 <= j < i ==> (#[trigger] self.table()[j]).status != JobStatus::Pending,
            decreases self.jobs@.len() - i,
        {
            let is_pending = match self.jobs[i].status {
                JobStatus::Pending => true,
                JobStatus::Running => false,
            };
            if is_pending {
                let task = self.jobs[i].key.duplicate();
                let entry = crate::store::element_mut(&mut self.jobs, i);
                entry.status = JobStatus::Running;
                self.executions_started = saturating_add(self.executions_started, 1);
                proof {
                    assert(self.table() =~= old_table.update(
                        i as int,
                        JobEntryView {
                            key: old_table[i as int].key,
                            status: JobStatus::Running,
                            waiters: old_table[i as int].waiters,
                        },
                    ));
                    assert forall|a: int, b: int|
                        0 <= a < b < self.table().len() implies (#[trigger] self.table()[a]).key
                        != (#[trigger] self.table()[b]).key by {
                        assert(self.table()[a].key == old_table[a].key);
                        assert(self.table()[b].key == old_table[b].key);
                    }
                }
                return Some(task);
            }
            i += 1;
        }
        None
    }

    /// Completes the job for `key`: the entry leaves the table and the
    /// result is delivered to every waiter; the number of deliveries is
    /// returned. Completing an unknown key delivers nothing.
    pub fn complete(&mut self, key: &Task) -> (r: Option<u64>)
        requires
            old(self).wf(),
        ensures
            final(self).wf(),
            final(self).worker_count == old(self).worker_count,
            final(self).executions_started == old(self).executions_started,
            match r {
                Some(deliveries) => has_job(old(self).table(), key@) && deliveries == old(self).table()[job_index(old(self).table(), key@)].waiters && final(self).table() == old(self).table().remove(job_index(old(self).table(), key@)),
                None => !has_job(old(self).table(), key@) && *final(self) == *old(self),
            },
    {
        let ghost old_table = self.table();
        let mut i: usize = 0;
        while i < self.jobs.len()
            invariant
                0 <= i <= self.jobs@.len(),
                *self == *old(self),
                old(self).wf(),
                old_table == self.table(),
                forall|j: int| 0 <= j < i ==> (#[trigger] self.table()[j]).key != key@,
            decreases self.jobs@.len() - i,
        {
            if self.jobs[i].key.same_key(key) {
                proof {
                    lemma_job_index(old_table, i as int);
                }
                let waiters = self.jobs[i].waiters;
                self.jobs.remove(i);
                proof {
                    assert(self.table() =~= old_table.remove(i as int));
                    assert forall|a: int, b: int|
                        0 <= a < b < self.table().len() implies (#[trigger] self.table()[a]).key
                        != (#[trigger] self.table()[b]).key by {
                        let a2 = if a < i {
                            a
                        } else {
                            a + 1
                        };
                        let b2 = if b < i {
                            b
                        } else {
                            b + 1
                        };
                        assert(self.table()[a] == old_table[a2]);
                        assert(self.table()[b] == old_table[b2]);
                    }
                }
                return Some(waiters);
            }
            i += 1;
        }
        None
    }
}

/// With distinct keys, the entry found for a key is the one the table
/// holds for it.
proof fn lemma_job_index(js: Seq<JobEntryView>, i: int)
    requires
        0 <= i < js.len(),
        forall|a: int, b: int|
            0 <= a < b < js.len() ==> (#[trigger] js[a]).key != (#[trigger] js[b]).key,
    ensures
        has_job(js, js[i].key),
        job_index(js, js[i].key) == i,
{
    let k = js[i].key;
    if !has_job(js, k) {
        assert(js[i].key != k);
        assert(false);
    }
    let j = job_index(js, k);
    if j < i {
        assert(js[j].key != js[i].key);
        assert(false);
    } else if i < j {
        assert(js[i].key != js[j].key);
        assert(false);
    }
}

/// LAW: task coalescing. Enqueueing `n` identical keys that are not yet
/// in the table yields exactly one pending entry -- at most one
/// execution -- carrying `n` waiters, so completing the job delivers
/// the result exactly `n` times.
pub proof fn lemma_enqueue_coalesces(js: Seq<JobEntryView>, key: TaskView, n: nat)
    requires
        !has_job(js, key),
        forall|a: int, b: int|
            0 <= a < b < js.len() ==> (#[trigger] js[a]).key != (#[trigger] js[b]).key,
        1 <= n <= u64::MAX,
    ensures
        enqueue_n(js, key, n) == js.push(
            JobEntryView { key, status: JobStatus::Pending, waiters: n as u64 },
        ),
        enqueue_n(js, key, n).len() == js.len() + 1,
    decreases n,
{
    if n == 1 {
        assert(enqueue_n(js, key, 0) == js);
        assert(enqueue_n(js, key, 1) == enqueue_spec(js, key));
    } else {
        lemma_enqueue_coalesces(js, key, (n - 1) as nat);
        let prev = enqueue_n(js, key, (n - 1) as nat);
        assert(prev == js.push(
            JobEntryView { key, status: JobStatus::Pending, waiters: (n - 1) as u64 },
        ));
        assert(prev[prev.len() - 1].key == key);
        assert(has_job(prev, key));
        let i = job_index(prev, key);
        assert(i == prev.len() - 1) by {
            if i < prev.len() - 1 {
                assert(prev[i] == js[i]);
                assert(has_job(js, key));
            }
        }
        assert(enqueue_n(js, key, n) =~= js.push(
            JobEntryView { key, status: JobStatus::Pending, waiters: n as u64 },
        ));
    }
}

} // verus!
