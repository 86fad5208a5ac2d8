//! The job table: the registry of in-flight process groups.
//!
//! A job is created when a pipeline's first process is spawned, carries the
//! group id and the member process ids, and is removed when its last member
//! has been reaped.  Job ids grow monotonically from 1 within a session and
//! are never reused.  The table is pure data with atomic operations; the
//! driver shares it behind one mutex, so a lookup and its mutation are one
//! call here and never observably split, and never holds that lock while
//! blocked waiting on a child.
//!
//! State machine per job: `Running` (just spawned), `Stopped` (a stop signal
//! arrived; `bg`/`fg` resume it), and removal once every member is reaped —
//! by [`JobTable::reap`] for background jobs, by [`JobTable::take_job`] when
//! the foreground controller collects a foreground pipeline itself.

use vstd::prelude::*;

verus! {

/// The running/stopped state of a job still in the table.
#[derive(PartialEq, Eq, Structural, Clone, Copy, Debug)]
pub enum JobState {
    Running,
    Stopped,
}

/// One tracked pipeline instance.
#[derive(PartialEq, Eq, Debug)]
pub struct Job {
    pub id: u64,
    pub pgid: i32,
    pub members: Vec<i32>,
    pub command: Vec<u8>,
    pub state: JobState,
}

/// The model of a job.
pub struct JobModel {
    pub id: u64,
    pub pgid: i32,
    pub members: Seq<i32>,
    pub command: Seq<u8>,
    pub state: JobState,
}

impl View for Job {
    type V = JobModel;

    open spec fn view(&self) -> JobModel {
        JobModel {
            id: self.id,
            pgid: self.pgid,
            members: self.members@,
            command: self.command@,
            state: self.state,
        }
    }
}

/// The model of a job list.
pub open spec fn jobs_view(jobs: Seq<Job>) -> Seq<JobModel> {
    jobs.map_values(|j: Job| j@)
}

pub broadcast proof fn lemma_jobs_view_len(jobs: Seq<Job>)
    ensures
        #[trigger] jobs_view(jobs).len() == jobs.len(),
{
}

pub broadcast proof fn lemma_jobs_view_index(jobs: Seq<Job>, i: int)
    requires
        0 <= i < jobs.len(),
    ensures
        #[trigger] jobs_view(jobs)[i] == jobs[i]@,
{
}

/// The table of jobs and the next id to hand out.
pub struct JobTable {
    pub jobs: Vec<Job>,
    pub next_id: u64,
}

/// The model of the table.
pub struct TableModel {
    pub jobs: Seq<JobModel>,
    pub next_id: u64,
}

impl View for JobTable {
    type V = TableModel;

    open spec fn view(&self) -> TableModel {
        TableModel { jobs: jobs_view(self.jobs@), next_id: self.next_id }
    }
}

/// The table invariant: ids start at 1, stay below the next id, appear in
/// strictly increasing order (so no id repeats), and every job still has a
/// member to wait for.
pub open spec fn table_wf(t: TableModel) -> bool {
    &&& t.next_id >= 1
    &&& forall|i: int| 0 <= i < t.jobs.len() ==> 1 <= (#[trigger] t.jobs[i]).id < t.next_id
    &&& forall|i: int, j: int|
        0 <= i < j < t.jobs.len() ==> (#[trigger] t.jobs[i]).id < (#[trigger] t.jobs[j]).id
    &&& forall|i: int| 0 <= i < t.jobs.len() ==> (#[trigger] t.jobs[i]).members.len() >= 1
}

/// The index of pid's first occurrence in a member list from `from` on, or
/// -1.
pub open spec fn first_member_index(members: Seq<i32>, pid: i32, from: int) -> int
    decreases members.len() - from,
{
    if from < 0 || from >= members.len() {
        -1
    } else if members[from] == pid {
        from
    } else {
        first_member_index(members, pid, from + 1)
    }
}

/// The index of the first job from `from` on that has pid as a member, or
/// -1.
pub open spec fn first_job_with(jobs: Seq<JobModel>, pid: i32, from: int) -> int
    decreases jobs.len() - from,
{
    if from < 0 || from >= jobs.len() {
        -1
    } else if first_member_index(jobs[from].members, pid, 0) >= 0 {
        from
    } else {
        first_job_with(jobs, pid, from + 1)
    }
}

/// The index of the job with this id from `from` on, or -1.
pub open spec fn job_index_of(jobs: Seq<JobModel>, id: u64, from: int) -> int
    decreases jobs.len() - from,
{
    if from < 0 || from >= jobs.len() {
        -1
    } else if jobs[from].id == id {
        from
    } else {
        job_index_of(jobs, id, from + 1)
    }
}

/// What [`JobTable::insert`] does: one new `Running` job at the end of the
/// table, carrying the next id; the id counter moves on by one.
pub open spec fn insert_spec(t: TableModel, pgid: i32, members: Seq<i32>, command: Seq<u8>) -> (
    TableModel,
    u64,
) {
    (
        TableModel {
            jobs: t.jobs.push(
                JobModel { id: t.next_id, pgid, members, command, state: JobState::Running },
            ),
            next_id: (t.next_id + 1) as u64,
        },
        t.next_id,
    )
}

/// What one reap reports to the driver.
#[derive(PartialEq, Eq, Debug)]
pub enum ReapOutcome {
    /// The pid belongs to no tracked job: a foreground child, already
    /// collected elsewhere.
    NotTracked,
    /// A member exited but the job still has others; it stays.
    MemberExited { id: u64 },
    /// The last member exited: the job left the table, and the driver prints
    /// the completion notice with this id and command text.
    JobFinished { id: u64, command: Vec<u8> },
}

/// The model of a reap outcome.
pub enum ReapOutcomeModel {
    NotTracked,
    MemberExited { id: u64 },
    JobFinished { id: u64, command: Seq<u8> },
}

impl View for ReapOutcome {
    type V = ReapOutcomeModel;

    open spec fn view(&self) -> ReapOutcomeModel {
        match self {
            ReapOutcome::NotTracked => ReapOutcomeModel::NotTracked,
            ReapOutcome::MemberExited { id } => ReapOutcomeModel::MemberExited { id: *id },
            ReapOutcome::JobFinished { id, command } => ReapOutcomeModel::JobFinished {
                id: *id,
                command: command@,
            },
        }
    }
}

/// What [`JobTable::reap`] does: the first job holding the pid loses that
/// one member; a job left with no members leaves the table and its
/// completion is reported; an untracked pid changes nothing.
pub open spec fn reap_spec(t: TableModel, pid: i32) -> (TableModel, ReapOutcomeModel) {
    let ji = first_job_with(t.jobs, pid, 0);
    if ji < 0 {
        (t, ReapOutcomeModel::NotTracked)
    } else {
        let job = t.jobs[ji];
        let mi = first_member_index(job.members, pid, 0);
        let nm = job.members.remove(mi);
        if nm.len() == 0 {
            (
                TableModel { jobs: t.jobs.remove(ji), next_id: t.next_id },
                ReapOutcomeModel::JobFinished { id: job.id, command: job.command },
            )
        } else {
            (
                TableModel {
                    jobs: t.jobs.update(ji, JobModel { members: nm, ..job }),
                    next_id: t.next_id,
                },
                ReapOutcomeModel::MemberExited { id: job.id },
            )
        }
    }
}

pub proof fn lemma_first_member_index_bounds(members: Seq<i32>, pid: i32, from: int)
    requires
        0 <= from,
    ensures
        first_member_index(members, pid, from) == -1 || from <= first_member_index(
            members,
            pid,
            from,
        ) < members.len(),
        first_member_index(members, pid, from) >= 0 ==> members[first_member_index(
            members,
            pid,
            from,
        )] == pid,
    decreases members.len() - from,
{
    if from >= members.len() {
    } else if members[from] == pid {
    } else {
        lemma_first_member_index_bounds(members, pid, from + 1);
    }
}

pub proof fn lemma_first_job_with_bounds_zero(jobs: Seq<JobModel>, pid: i32)
    ensures
        first_job_with(jobs, pid, 0) == -1 || 0 <= first_job_with(jobs, pid, 0) < jobs.len(),
{
    lemma_first_job_with_bounds_from(jobs, pid, 0);
}

pub proof fn lemma_first_job_with_bounds_from(jobs: Seq<JobModel>, pid: i32, from: int)
    requires
        0 <= from,
    ensures
        first_job_with(jobs, pid, from) == -1 || from <= first_job_with(jobs, pid, from)
            < jobs.len(),
    decreases jobs.len() - from,
{
    if from >= jobs.len() {
    } else if first_member_index(jobs[from].members, pid, 0) >= 0 {
    } else {
        lemma_first_job_with_bounds_from(jobs, pid, from + 1);
    }
}

/// Reaping preserves the table invariant.
pub proof fn lemma_reap_wf(t: TableModel, pid: i32)
    requires
        table_wf(t),
    ensures
        table_wf(reap_spec(t, pid).0),
{
    let ji = first_job_with(t.jobs, pid, 0);
    lemma_first_job_with_bounds_zero(t.jobs, pid);
    if ji < 0 {
    } else {
        let job = t.jobs[ji];
        let mi = first_member_index(job.members, pid, 0);
        lemma_first_member_index_bounds(job.members, pid, 0);
        let nm = job.members.remove(mi);
        if nm.len() == 0 {
            let njobs = t.jobs.remove(ji);
            assert forall|i: int| 0 <= i < njobs.len() implies 1 <= (#[trigger] njobs[i]).id
                < t.next_id && njobs[i].members.len() >= 1 by {
                if i < ji {
                    assert(njobs[i] == t.jobs[i]);
                } else {
                    assert(njobs[i] == t.jobs[i + 1]);
                }
            }
            assert forall|i: int, j: int| 0 <= i < j < njobs.len() implies (
            #[trigger] njobs[i]).id < (#[trigger] njobs[j]).id by {
                if j < ji {
                } else if i < ji {
                    assert(njobs[j] == t.jobs[j + 1]);
                } else {
                    assert(njobs[i] == t.jobs[i + 1]);
                    assert(njobs[j] == t.jobs[j + 1]);
                }
            }
        } else {
            let njobs = t.jobs.update(ji, JobModel { members: nm, ..job });
        }
    }
}

/// What [`JobTable::set_state`] does: the job with this id, if any, moves to
/// the given state; nothing else changes.
pub open spec fn set_state_spec(t: TableModel, id: u64, state: JobState) -> (TableModel, bool) {
    let ji = job_index_of(t.jobs, id, 0);
    if ji < 0 {
        (t, false)
    } else {
        (
            TableModel {
                jobs: t.jobs.update(ji, JobModel { state, ..t.jobs[ji] }),
                next_id: t.next_id,
            },
            true,
        )
    }
}

/// What [`JobTable::take_job`] does: the job with this id, if any, leaves
/// the table and is handed to the caller.
pub open spec fn take_job_spec(t: TableModel, id: u64) -> (TableModel, Option<JobModel>) {
    let ji = job_index_of(t.jobs, id, 0);
    if ji < 0 {
        (t, Option::None)
    } else {
        (
            TableModel { jobs: t.jobs.remove(ji), next_id: t.next_id },
            Option::Some(t.jobs[ji]),
        )
    }
}

pub proof fn lemma_job_index_of_bounds(jobs: Seq<JobModel>, id: u64, from: int)
    requires
        0 <= from,
    ensures
        job_index_of(jobs, id, from) == -1 || from <= job_index_of(jobs, id, from) < jobs.len(),
        job_index_of(jobs, id, from) >= 0 ==> jobs[job_index_of(jobs, id, from)].id == id,
    decreases jobs.len() - from,
{
    if from >= jobs.len() {
    } else if jobs[from].id == id {
    } else {
        lemma_job_index_of_bounds(jobs, id, from + 1);
    }
}

/// Removing one job preserves the table invariant.
pub proof fn lemma_remove_wf(t: TableModel, ji: int)
    requires
        table_wf(t),
        0 <= ji < t.jobs.len(),
    ensures
        table_wf(TableModel { jobs: t.jobs.remove(ji), next_id: t.next_id }),
{
    let njobs = t.jobs.remove(ji);
    assert forall|i: int| 0 <= i < njobs.len() implies 1 <= (#[trigger] njobs[i]).id < t.next_id
        && njobs[i].members.len() >= 1 by {
        if i < ji {
            assert(njobs[i] == t.jobs[i]);
        } else {
            assert(njobs[i] == t.jobs[i + 1]);
        }
    }
    assert forall|i: int, j: int| 0 <= i < j < njobs.len() implies (#[trigger] njobs[i]).id < (
    #[trigger] njobs[j]).id by {
        if j < ji {
        } else if i < ji {
            assert(njobs[j] == t.jobs[j + 1]);
        } else {
            assert(njobs[i] == t.jobs[i + 1]);
            assert(njobs[j] == t.jobs[j + 1]);
        }
    }
}

/// Updating one job in place, with its id kept, preserves the invariant as
/// long as the new job still has a member.
pub proof fn lemma_update_wf(t: TableModel, ji: int, nj: JobModel)
    requires
        table_wf(t),
        0 <= ji < t.jobs.len(),
        nj.id == t.jobs[ji].id,
        nj.members.len() >= 1,
    ensures
        table_wf(TableModel { jobs: t.jobs.update(ji, nj), next_id: t.next_id }),
{
}

/// The state change preserves the invariant.
pub proof fn lemma_set_state_wf(t: TableModel, id: u64, state: JobState)
    requires
        table_wf(t),
    ensures
        table_wf(set_state_spec(t, id, state).0),
{
    let ji = job_index_of(t.jobs, id, 0);
    lemma_job_index_of_bounds(t.jobs, id, 0);
    if ji >= 0 {
        lemma_update_wf(t, ji, JobModel { state, ..t.jobs[ji] });
    }
}

impl JobTable {
    /// An empty table; the first job of the session gets id 1.
    pub fn new() -> (r: JobTable)
        ensures
            r@.next_id == 1,
            r@.jobs == Seq::<JobModel>::empty(),
            table_wf(r@),
    {
        let t = JobTable { jobs: Vec::new(), next_id: 1 };
        proof {
            assert(jobs_view(t.jobs@) =~= Seq::<JobModel>::empty());
        }
        t
    }

    /// Inserts a just-spawned pipeline as one new `Running` job and hands
    /// back its id: exactly one record, carrying exactly the given members.
    pub fn insert(&mut self, pgid: i32, members: Vec<i32>, command: Vec<u8>) -> (id: u64)
        requires
            table_wf(old(self)@),
            old(self)@.next_id < u64::MAX,
            members@.len() >= 1,
        ensures
            final(self)@ == insert_spec(old(self)@, pgid, members@, command@).0,
            id == insert_spec(old(self)@, pgid, members@, command@).1,
            table_wf(final(self)@),
    {
        broadcast use lemma_jobs_view_len, lemma_jobs_view_index;

        let id = self.next_id;
        let ghost jobs0 = self@.jobs;
        let nj = Job { id, pgid, members, command, state: JobState::Running };
        let ghost njv = nj@;
        self.jobs.push(nj);
        self.next_id = self.next_id + 1;
        proof {
            assert(jobs_view(self.jobs@) =~= jobs0.push(njv));
            let t1 = insert_spec(TableModel { jobs: jobs0, next_id: id }, pgid, njv.members,
                njv.command).0;
            assert(self@.jobs =~= t1.jobs);
            assert forall|i: int| 0 <= i < self@.jobs.len() implies 1 <= (
            #[trigger] self@.jobs[i]).id < self@.next_id && self@.jobs[i].members.len() >= 1 by {
                if i < jobs0.len() {
                    assert(self@.jobs[i] == jobs0[i]);
                }
            }
            assert forall|i: int, j: int| 0 <= i < j < self@.jobs.len() implies (
            #[trigger] self@.jobs[i]).id < (#[trigger] self@.jobs[j]).id by {
                if j < jobs0.len() {
                } else {
                    assert(self@.jobs[j] == njv);
                    if i < jobs0.len() {
                        assert(self@.jobs[i] == jobs0[i]);
                    }
                }
            }
        }
        id
    }

    /// Drains one terminated child from the table: the first job holding the
    /// pid loses that member, and leaves the table when it was the last.
    /// This is the only path that removes a background job.
    pub fn reap(&mut self, pid: i32) -> (r: ReapOutcome)
        requires
            table_wf(old(self)@),
        ensures
            final(self)@ == reap_spec(old(self)@, pid).0,
            r@ == reap_spec(old(self)@, pid).1,
            table_wf(final(self)@),
    {
        broadcast use lemma_jobs_view_len, lemma_jobs_view_index;

        let ghost t0 = self@;
        proof {
            lemma_reap_wf(t0, pid);
            lemma_first_job_with_bounds_zero(t0.jobs, pid);
        }
        let n = self.jobs.len();
        let mut i: usize = 0;
        while i < n
            invariant
                table_wf(t0),
                t0 == old(self)@,
                t0 == self@,
                n == self.jobs.len(),
                i <= n,
                first_job_with(t0.jobs, pid, 0) == first_job_with(t0.jobs, pid, i as int),
            decreases n - i,
        {
            proof {
                assert(t0.jobs[i as int] == self.jobs@[i as int]@);
            }
            match member_index(&self.jobs[i].members, pid) {
                Option::Some(mi) => {
                    proof {
                        assert(first_job_with(t0.jobs, pid, i as int) == i as int);
                        lemma_first_member_index_bounds(t0.jobs[i as int].members, pid, 0);
                    }
                    let ghost jobs0 = t0.jobs;
                    let mut job = self.jobs.remove(i);
                    let _gone = job.members.remove(mi);
                    proof {
                        assert(job@.members =~= jobs0[i as int].members.remove(mi as int));
                    }
                    if job.members.len() == 0 {
                        proof {
                            assert forall|k: int|
                                0 <= k < self.jobs@.len() implies #[trigger] jobs_view(
                                self.jobs@,
                            )[k] == jobs0.remove(i as int)[k] by {
                                if k < i {
                                } else {
                                }
                            }
                            assert(jobs_view(self.jobs@) =~= jobs0.remove(i as int));
                        }
                        return ReapOutcome::JobFinished { id: job.id, command: job.command };
                    } else {
                        let ghost njv = job@;
                        let id = job.id;
                        self.jobs.insert(i, job);
                        proof {
                            assert forall|k: int|
                                0 <= k < self.jobs@.len() implies #[trigger] jobs_view(
                                self.jobs@,
                            )[k] == jobs0.update(i as int, njv)[k] by {}
                            assert(jobs_view(self.jobs@) =~= jobs0.update(i as int, njv));
                        }
                        return ReapOutcome::MemberExited { id };
                    }
                },
                Option::None => {
                    proof {
                        assert(first_member_index(t0.jobs[i as int].members, pid, 0) == -1);
                    }
                    i += 1;
                },
            }
        }
        ReapOutcome::NotTracked
    }

    /// Moves the job with this id between `Running` and `Stopped`, as the
    /// `fg`/`bg` builtins and stop signals demand.  Membership never changes
    /// here.
    pub fn set_state(&mut self, id: u64, state: JobState) -> (found: bool)
        requires
            table_wf(old(self)@),
        ensures
            final(self)@ == set_state_spec(old(self)@, id, state).0,
            found == set_state_spec(old(self)@, id, state).1,
            table_wf(final(self)@),
    {
        broadcast use lemma_jobs_view_len, lemma_jobs_view_index;

        let ghost t0 = self@;
        proof {
            lemma_set_state_wf(t0, id, state);
            lemma_job_index_of_bounds(t0.jobs, id, 0);
        }
        let n = self.jobs.len();
        let mut i: usize = 0;
        while i < n
            invariant
                table_wf(t0),
                t0 == old(self)@,
                t0 == self@,
                n == self.jobs.len(),
                i <= n,
                job_index_of(t0.jobs, id, 0) == job_index_of(t0.jobs, id, i as int),
            decreases n - i,
        {
            proof {
                assert(t0.jobs[i as int] == self.jobs@[i as int]@);
            }
            if self.jobs[i].id == id {
                let ghost jobs0 = t0.jobs;
                let mut job = self.jobs.remove(i);
                job.state = state;
                let ghost njv = job@;
                self.jobs.insert(i, job);
                proof {
                    assert forall|k: int| 0 <= k < self.jobs@.len() implies #[trigger] jobs_view(
                        self.jobs@,
                    )[k] == jobs0.update(i as int, njv)[k] by {}
                    assert(jobs_view(self.jobs@) =~= jobs0.update(i as int, njv));
                }
                return true;
            }
            i += 1;
        }
        false
    }

    /// Removes and hands back the job with this id: the foreground
    /// controller's way of collecting a pipeline it waited for itself.
    pub fn take_job(&mut self, id: u64) -> (r: Option<Job>)
        requires
            table_wf(old(self)@),
        ensures
            final(self)@ == take_job_spec(old(self)@, id).0,
            (match r {
                Option::Some(j) => take_job_spec(old(self)@, id).1 == Option::Some(j@),
                Option::None => take_job_spec(old(self)@, id).1 is None,
            }),
            table_wf(final(self)@),
    {
        broadcast use lemma_jobs_view_len, lemma_jobs_view_index;

        let ghost t0 = self@;
        proof {
            lemma_job_index_of_bounds(t0.jobs, id, 0);
            if job_index_of(t0.jobs, id, 0) >= 0 {
                lemma_remove_wf(t0, job_index_of(t0.jobs, id, 0));
            }
        }
        let n = self.jobs.len();
        let mut i: usize = 0;
        while i < n
            invariant
                table_wf(t0),
                t0 == old(self)@,
                t0 == self@,
                n == self.jobs.len(),
                i <= n,
                job_index_of(t0.jobs, id, 0) == job_index_of(t0.jobs, id, i as int),
            decreases n - i,
        {
            proof {
                assert(t0.jobs[i as int] == self.jobs@[i as int]@);
            }
            if self.jobs[i].id == id {
                let ghost jobs0 = t0.jobs;
                let job = self.jobs.remove(i);
                proof {
                    assert forall|k: int| 0 <= k < self.jobs@.len() implies #[trigger] jobs_view(
                        self.jobs@,
                    )[k] == jobs0.remove(i as int)[k] by {}
                    assert(jobs_view(self.jobs@) =~= jobs0.remove(i as int));
                }
                return Option::Some(job);
            }
            i += 1;
        }
        Option::None
    }
}

/// The index of pid's first occurrence in a member list.
fn member_index(members: &Vec<i32>, pid: i32) -> (r: Option<usize>)
    ensures
        (match r {
            Option::Some(k) => first_member_index(members@, pid, 0) == k as int,
            Option::None => first_member_index(members@, pid, 0) == -1,
        }),
{
    let mut j: usize = 0;
    while j < members.len()
        invariant
            j <= members.len(),
            first_member_index(members@, pid, 0) == first_member_index(members@, pid, j as int),
        decreases members.len() - j,
    {
        if members[j] == pid {
            return Option::Some(j);
        }
        j += 1;
    }
    Option::None
}

pub proof fn lemma_first_job_with_push(jobs: Seq<JobModel>, pid: i32, nj: JobModel, from: int)
    requires
        0 <= from <= jobs.len(),
        first_job_with(jobs, pid, from) == -1,
        first_member_index(nj.members, pid, 0) >= 0,
    ensures
        first_job_with(jobs.push(nj), pid, from) == jobs.len(),
    decreases jobs.len() - from,
{
    if from == jobs.len() {
        assert(jobs.push(nj)[from] == nj);
    } else {
        assert(jobs.push(nj)[from] == jobs[from]);
        lemma_first_job_with_push(jobs, pid, nj, from + 1);
    }
}

/// A background job's whole life, in one statement: inserting a freshly
/// spawned pipeline with a single member pid adds exactly one `Running` job
/// under the next id, and the reap of that pid — with no foreground action in
/// between — reports exactly that job as finished and leaves the table as it
/// was.  The pid must be fresh: the OS hands out pids that no tracked job
/// still holds.
pub proof fn lemma_background_job_lifecycle(
    t: TableModel,
    pgid: i32,
    pid: i32,
    command: Seq<u8>,
)
    requires
        table_wf(t),
        t.next_id < u64::MAX,
        first_job_with(t.jobs, pid, 0) == -1,
    ensures
        ({
            let (t1, id) = insert_spec(t, pgid, seq![pid], command);
            let (t2, out) = reap_spec(t1, pid);
            &&& id == t.next_id
            &&& t1.jobs.len() == t.jobs.len() + 1
            &&& t1.jobs.last() == JobModel {
                id,
                pgid,
                members: seq![pid],
                command,
                state: JobState::Running,
            }
            &&& out == ReapOutcomeModel::JobFinished { id, command }
            &&& t2.jobs == t.jobs
            &&& t2.next_id == t1.next_id
        }),
{
    let (t1, id) = insert_spec(t, pgid, seq![pid], command);
    let nj = JobModel { id, pgid, members: seq![pid], command, state: JobState::Running };
    assert(first_member_index(nj.members, pid, 0) == 0);
    lemma_first_job_with_push(t.jobs, pid, nj, 0);
    assert(first_job_with(t1.jobs, pid, 0) == t.jobs.len());
    assert(t1.jobs[t.jobs.len() as int] == nj);
    assert(nj.members.remove(0) =~= Seq::<i32>::empty());
    assert(t1.jobs.remove(t.jobs.len() as int) =~= t.jobs);
}

} // verus!
