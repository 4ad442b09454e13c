//! Background-job bookkeeping: in-flight job snapshots keyed by job id, the events workers send,
//! and a small recency ring of terminated jobs.
//!
//! Workers send many progress events and then exactly one terminal event; the owner of the
//! event channel hands each event to [`JobManager::apply_event`]. The manager does not know
//! what kind of work a job does: progress is a payload `P` it only stores.
use std::collections::{BTreeMap, VecDeque};
use vstd::prelude::*;
use vstd::std_specs::cmp::OrdSpec;
use vstd::std_specs::iter::IteratorSpec;

verus! {

broadcast use {vstd::std_specs::btree::group_btree_axioms, vstd::laws_cmp::group_laws_cmp};

/// Identifier of a background job.
pub type JobId = u64;

/// How many terminated jobs the recency ring keeps.
pub const RECENT_FINISHED_CAP: usize = 12;

/// Descriptive tag of a job.
#[derive(Debug, Clone, Copy, PartialEq, Eq, Structural)]
pub enum JobKind {
    DemoTimed,
    LoadWav,
}

/// Life-cycle state of a job.
#[derive(Debug, Clone, Copy, PartialEq, Eq, Structural)]
pub enum JobStatus {
    Running,
    Completed,
    Failed,
}

/// What the UI reads each frame for one in-flight job.
#[derive(Debug, Clone, PartialEq)]
pub struct JobSnapshot<P> {
    pub job_id: JobId,
    pub kind: JobKind,
    pub label: String,
    pub status: JobStatus,
    pub progress: P,
    pub message: Option<String>,
}

/// A terminated job as the recent-jobs list shows it.
#[derive(Debug, Clone, PartialEq, Eq)]
pub struct FinishedJob {
    pub job_id: JobId,
    pub kind: JobKind,
    pub label: String,
    pub status: JobStatus,
    pub summary: String,
}

/// Progress update from a worker.
#[derive(Debug, Clone)]
pub struct JobProgressEvent<P> {
    pub job_id: JobId,
    pub progress: P,
    pub message: Option<String>,
}

/// Completion of a job, with the summary shown to the user.
#[derive(Debug, Clone)]
pub struct JobCompletionEvent {
    pub job_id: JobId,
    pub summary: String,
}

/// Failure of a job.
#[derive(Debug)]
pub struct JobFailureEvent {
    pub job_id: JobId,
    pub error: String,
}

/// One message from a worker.
#[derive(Debug)]
pub enum JobEvent<P> {
    Progress(JobProgressEvent<P>),
    Completed(JobCompletionEvent),
    Failed(JobFailureEvent),
}

/// In-flight jobs and the recency ring.
#[derive(Debug)]
pub struct JobManager<P> {
    next_id: JobId,
    jobs: BTreeMap<JobId, JobSnapshot<P>>,
    finished: VecDeque<FinishedJob>,
}

/// A job manager as a mathematical value.
pub struct JobManagerView<P> {
    pub next_id: JobId,
    pub jobs: Map<JobId, JobSnapshot<P>>,
    pub finished: Seq<FinishedJob>,
}

impl<P> View for JobManager<P> {
    type V = JobManagerView<P>;

    closed spec fn view(&self) -> JobManagerView<P> {
        JobManagerView { next_id: self.next_id, jobs: self.jobs@, finished: self.finished@ }
    }
}

/// The manager's invariant: every in-flight job is stored under its own id, which is below
/// the next id to hand out, and the ring holds at most `RECENT_FINISHED_CAP` jobs.
pub open spec fn manager_wf<P>(m: JobManagerView<P>) -> bool {
    &&& forall|id: JobId| #[trigger] m.jobs.contains_key(id) ==> id < m.next_id && m.jobs[id].job_id == id
    &&& m.finished.len() <= RECENT_FINISHED_CAP
    &&& m.next_id >= 1
}

/// The ring after a terminated job is put in front of it.
pub open spec fn pushed_finished(ring: Seq<FinishedJob>, f: FinishedJob) -> Seq<FinishedJob> {
    let r = seq![f] + ring;
    if r.len() > RECENT_FINISHED_CAP {
        r.take(RECENT_FINISHED_CAP as int)
    } else {
        r
    }
}

/// The terminated form of a snapshot.
pub open spec fn finished_from<P>(job: JobSnapshot<P>, status: JobStatus, summary: String) -> FinishedJob {
    FinishedJob { job_id: job.job_id, kind: job.kind, label: job.label, status, summary }
}

/// The manager after one event.
pub open spec fn after_event<P>(m: JobManagerView<P>, e: JobEvent<P>) -> JobManagerView<P> {
    match e {
        JobEvent::Progress(p) => if m.jobs.contains_key(p.job_id) {
            JobManagerView {
                jobs: m.jobs.insert(
                    p.job_id,
                    JobSnapshot {
                        status: JobStatus::Running,
                        progress: p.progress,
                        message: p.message,
                        ..m.jobs[p.job_id]
                    },
                ),
                ..m
            }
        } else {
            m
        },
        JobEvent::Completed(c) => if m.jobs.contains_key(c.job_id) {
            JobManagerView {
                jobs: m.jobs.remove(c.job_id),
                finished: pushed_finished(
                    m.finished,
                    finished_from(m.jobs[c.job_id], JobStatus::Completed, c.summary),
                ),
                ..m
            }
        } else {
            m
        },
        JobEvent::Failed(f) => if m.jobs.contains_key(f.job_id) {
            JobManagerView {
                jobs: m.jobs.remove(f.job_id),
                finished: pushed_finished(
                    m.finished,
                    finished_from(m.jobs[f.job_id], JobStatus::Failed, f.error),
                ),
                ..m
            }
        } else {
            m
        },
    }
}

/// Whether an event concerns an in-flight job.
pub open spec fn event_job_id<P>(e: JobEvent<P>) -> JobId {
    match e {
        JobEvent::Progress(p) => p.job_id,
        JobEvent::Completed(c) => c.job_id,
        JobEvent::Failed(f) => f.job_id,
    }
}

impl<P> JobManager<P> {
    /// No jobs; the first job gets id 1.
    pub fn new() -> (r: Self)
        ensures
            r@.next_id == 1,
            r@.jobs == Map::<JobId, JobSnapshot<P>>::empty(),
            r@.finished == Seq::<FinishedJob>::empty(),
            manager_wf(r@),
    {
        JobManager { next_id: 1, jobs: BTreeMap::new(), finished: VecDeque::new() }
    }

    /// Register a new in-flight job, running from the start, with `starting` as its progress.
    pub fn start_job(&mut self, kind: JobKind, label: String, starting: P) -> (job_id: JobId)
        requires
            manager_wf(old(self)@),
            old(self)@.next_id < u64::MAX,
        ensures
            manager_wf(final(self)@),
            job_id == old(self)@.next_id,
            final(self)@.next_id == old(self)@.next_id + 1,
            final(self)@.jobs == old(self)@.jobs.insert(
                job_id,
                JobSnapshot {
                    job_id,
                    kind,
                    label,
                    status: JobStatus::Running,
                    progress: starting,
                    message: None,
                },
            ),
            final(self)@.finished == old(self)@.finished,
    {
        let job_id = self.next_id;
        self.next_id = self.next_id + 1;
        self.jobs.insert(
            job_id,
            JobSnapshot {
                job_id,
                kind,
                label,
                status: JobStatus::Running,
                progress: starting,
                message: None,
            },
        );
        job_id
    }

    /// The id the next job will get.
    pub fn next_job_id(&self) -> (r: JobId)
        ensures
            r == self@.next_id,
    {
        self.next_id
    }

    /// Number of in-flight jobs.
    pub fn pending(&self) -> (r: usize)
        ensures
            r == self@.jobs.dom().len(),
    {
        self.jobs.len()
    }

    /// The in-flight job of the given id.
    pub fn job(&self, job_id: JobId) -> (r: Option<&JobSnapshot<P>>)
        ensures
            match r {
                Some(j) => self@.jobs.contains_key(job_id) && *j == self@.jobs[job_id],
                None => !self@.jobs.contains_key(job_id),
            },
    {
        self.jobs.get(&job_id)
    }

    /// The in-flight job with the smallest id, i.e. the one started first.
    pub fn primary_job(&self) -> (r: Option<&JobSnapshot<P>>)
        ensures
            match r {
                Some(j) => exists|id: JobId|
                    #![trigger self@.jobs[id]]
                    self@.jobs.contains_key(id) && *j == self@.jobs[id] && forall|other: JobId|
                        #[trigger] self@.jobs.contains_key(other) ==> id <= other,
                None => self@.jobs.dom().is_empty(),
            },
    {
        for job in it: self.jobs.values()
            invariant
                it.index() == 0,
                it.seq().len() == self@.jobs.dom().len(),
                exists|key_seq: Seq<JobId>|
                    {
                        &&& vstd::std_specs::btree::increasing_seq(key_seq)
                        &&& key_seq.to_set() == self@.jobs.dom()
                        &&& key_seq.no_duplicates()
                        &&& it.seq() == key_seq.map(|i: int, k| &self@.jobs[k])
                    },
        {
            proof {
                let key_seq = choose|key_seq: Seq<JobId>|
                    {
                        &&& vstd::std_specs::btree::increasing_seq(key_seq)
                        &&& key_seq.to_set() == self@.jobs.dom()
                        &&& key_seq.no_duplicates()
                        &&& it.seq() == key_seq.map(|i: int, k| &self@.jobs[k])
                    };
                let id = key_seq[0];
                assert(*job == self@.jobs[id]);
                assert(key_seq.to_set().contains(id));
                assert forall|other: JobId| #[trigger] self@.jobs.contains_key(other) implies id
                    <= other by {
                    assert(key_seq.to_set().contains(other));
                    let k = choose|k: int| 0 <= k < key_seq.len() && key_seq[k] == other;
                    if k > 0 {
                        assert(key_seq[0].cmp_spec(&key_seq[k]) is Less);
                    }
                }
            }
            return Some(job);
        }
        proof {
            assert(self@.jobs.dom().finite());
            assert(self@.jobs.dom().len() == 0);
        }
        None
    }

    /// The in-flight jobs in start order (by increasing id).
    pub fn jobs(&self) -> (r: Vec<&JobSnapshot<P>>)
        requires
            manager_wf(self@),
        ensures
            r@.len() == self@.jobs.dom().len(),
            forall|i: int, j: int| 0 <= i < j < r@.len() ==> r@[i].job_id < r@[j].job_id,
            forall|i: int|
                0 <= i < r@.len() ==> self@.jobs.contains_key((#[trigger] r@[i]).job_id) && *r@[i]
                    == self@.jobs[r@[i].job_id],
            forall|id: JobId|
                #[trigger] self@.jobs.contains_key(id) ==> exists|i: int|
                    0 <= i < r@.len() && (#[trigger] r@[i]).job_id == id,
    {
        let ghost v = vstd::std_specs::btree::spec_values_iter(&self.jobs).remaining();
        let mut out: Vec<&JobSnapshot<P>> = Vec::new();
        for job in it: self.jobs.values()
            invariant
                it.seq() == v,
                out@.len() == it.index(),
                forall|i: int| 0 <= i < it.index() ==> out@[i] == v[i],
                exists|key_seq: Seq<JobId>|
                    {
                        &&& vstd::std_specs::btree::increasing_seq(key_seq)
                        &&& key_seq.to_set() == self@.jobs.dom()
                        &&& key_seq.no_duplicates()
                        &&& v == key_seq.map(|i: int, k| &self@.jobs[k])
                    },
        {
            out.push(job);
        }
        proof {
            let key_seq = choose|key_seq: Seq<JobId>|
                {
                    &&& vstd::std_specs::btree::increasing_seq(key_seq)
                    &&& key_seq.to_set() == self@.jobs.dom()
                    &&& key_seq.no_duplicates()
                    &&& v == key_seq.map(|i: int, k| &self@.jobs[k])
                };
            assert(out@.len() == v.len());
            assert forall|i: int| 0 <= i < out@.len() implies self@.jobs.contains_key(
                (#[trigger] out@[i]).job_id,
            ) && *out@[i] == self@.jobs[out@[i].job_id] by {
                assert(key_seq.to_set().contains(key_seq[i]));
                assert(out@[i] == v[i]);
                assert(*out@[i] == self@.jobs[key_seq[i]]);
            }
            assert forall|i: int, j: int| 0 <= i < j < out@.len() implies out@[i].job_id
                < out@[j].job_id by {
                assert(key_seq.to_set().contains(key_seq[i]));
                assert(key_seq.to_set().contains(key_seq[j]));
                assert(out@[i] == v[i] && out@[j] == v[j]);
                assert(*out@[i] == self@.jobs[key_seq[i]]);
                assert(*out@[j] == self@.jobs[key_seq[j]]);
                lemma_increasing_ids(key_seq, i, j);
            }
            assert forall|id: JobId| #[trigger] self@.jobs.contains_key(id) implies exists|i: int|
                0 <= i < out@.len() && (#[trigger] out@[i]).job_id == id by {
                assert(key_seq.to_set().contains(id));
                let i = choose|i: int| 0 <= i < key_seq.len() && key_seq[i] == id;
                assert(out@[i] == v[i]);
                assert(*out@[i] == self@.jobs[key_seq[i]]);
            }
        }
        out
    }

    /// The terminated jobs, most recent first.
    pub fn recent_finished(&self) -> (r: Vec<&FinishedJob>)
        ensures
            r@.len() == self@.finished.len(),
            forall|i: int| 0 <= i < r@.len() ==> *(#[trigger] r@[i]) == self@.finished[i],
    {
        let mut out: Vec<&FinishedJob> = Vec::new();
        let mut i: usize = 0;
        while i < self.finished.len()
            invariant
                i <= self@.finished.len(),
                out@.len() == i,
                forall|k: int| 0 <= k < i ==> *(#[trigger] out@[k]) == self@.finished[k],
            decreases self.finished.len() - i,
        {
            out.push(&self.finished[i]);
            i += 1;
        }
        out
    }

    /// Apply one worker event: progress updates a known job and marks it running; a terminal
    /// event moves a known job into the recency ring with its summary or error. Events for
    /// unknown jobs change nothing. Returns whether the event concerned an in-flight job.
    pub fn apply_event(&mut self, event: JobEvent<P>) -> (known: bool)
        requires
            manager_wf(old(self)@),
        ensures
            manager_wf(final(self)@),
            final(self)@ == after_event(old(self)@, event),
            known == old(self)@.jobs.contains_key(event_job_id(event)),
    {
        match event {
            JobEvent::Progress(progress) => {
                let ghost before = self.jobs@;
                match self.jobs.remove(&progress.job_id) {
                    Some(job) => {
                        let updated = JobSnapshot {
                            job_id: job.job_id,
                            kind: job.kind,
                            label: job.label,
                            status: JobStatus::Running,
                            progress: progress.progress,
                            message: progress.message,
                        };
                        self.jobs.insert(progress.job_id, updated);
                        proof {
                            assert(self.jobs@ =~= before.insert(progress.job_id, updated));
                        }
                        true
                    },
                    None => {
                        proof {
                            assert(self.jobs@ =~= before);
                        }
                        false
                    },
                }
            },
            JobEvent::Completed(completion) => {
                let ghost before = self.jobs@;
                match self.jobs.remove(&completion.job_id) {
                    Some(job) => {
                        self.push_finished(
                            FinishedJob {
                                job_id: job.job_id,
                                kind: job.kind,
                                label: job.label,
                                status: JobStatus::Completed,
                                summary: completion.summary,
                            },
                        );
                        true
                    },
                    None => {
                        proof {
                            assert(self.jobs@ =~= before);
                        }
                        false
                    },
                }
            },
            JobEvent::Failed(failure) => {
                let ghost before = self.jobs@;
                match self.jobs.remove(&failure.job_id) {
                    Some(job) => {
                        self.push_finished(
                            FinishedJob {
                                job_id: job.job_id,
                                kind: job.kind,
                                label: job.label,
                                status: JobStatus::Failed,
                                summary: failure.error,
                            },
                        );
                        true
                    },
                    None => {
                        proof {
                            assert(self.jobs@ =~= before);
                        }
                        false
                    },
                }
            },
        }
    }

    fn push_finished(&mut self, finished: FinishedJob)
        requires
            old(self)@.finished.len() <= RECENT_FINISHED_CAP,
        ensures
            final(self)@.finished == pushed_finished(old(self)@.finished, finished),
            final(self)@.jobs == old(self)@.jobs,
            final(self)@.next_id == old(self)@.next_id,
    {
        let ghost ring = seq![finished] + self.finished@;
        self.finished.push_front(finished);
        proof {
            assert(self.finished@ =~= ring);
        }
        while self.finished.len() > RECENT_FINISHED_CAP
            invariant
                self.finished@.len() <= RECENT_FINISHED_CAP + 1,
                self.finished@.len() > RECENT_FINISHED_CAP ==> self.finished@ == ring,
                self.finished@.len() <= RECENT_FINISHED_CAP ==> self.finished@ == pushed_finished(
                    old(self)@.finished,
                    finished,
                ),
                ring == seq![finished] + old(self)@.finished,
                self.jobs == old(self).jobs,
                self.next_id == old(self).next_id,
            decreases self.finished.len(),
        {
            self.finished.pop_back();
            proof {
                assert(self.finished@ =~= ring.take(RECENT_FINISHED_CAP as int));
            }
        }
    }
}

impl<P> Default for JobManager<P> {
    fn default() -> (r: Self)
        ensures
            r@.next_id == 1,
            r@.jobs == Map::<JobId, JobSnapshot<P>>::empty(),
            r@.finished == Seq::<FinishedJob>::empty(),
            manager_wf(r@),
    {
        JobManager::new()
    }
}

/// In an increasing sequence of ids, earlier ids are smaller.
proof fn lemma_increasing_ids(ids: Seq<JobId>, i: int, j: int)
    requires
        vstd::std_specs::btree::increasing_seq(ids),
        0 <= i < j < ids.len(),
    ensures
        ids[i] < ids[j],
{
    assert(ids[i].cmp_spec(&ids[j]) is Less);
}

/// Law: a started job gets an id no in-flight job has, so ids never repeat.
pub proof fn started_job_id_is_fresh<P>(m: JobManagerView<P>)
    requires
        manager_wf(m),
    ensures
        !m.jobs.contains_key(m.next_id),
{
}

/// Law: a terminal event for an in-flight job removes it from the in-flight jobs and puts it,
/// with its terminal status and the event's summary or error, at the front of the recency
/// ring, which never grows past its cap.
pub proof fn terminal_event_moves_job_to_ring<P>(m: JobManagerView<P>, e: JobEvent<P>)
    requires
        manager_wf(m),
        m.jobs.contains_key(event_job_id(e)),
        !(e is Progress),
    ensures
        !after_event(m, e).jobs.contains_key(event_job_id(e)),
        after_event(m, e).jobs.dom() == m.jobs.dom().remove(event_job_id(e)),
        after_event(m, e).finished[0].job_id == event_job_id(e),
        after_event(m, e).finished[0].label == m.jobs[event_job_id(e)].label,
        e matches JobEvent::Completed(c) ==> after_event(m, e).finished[0].status
            == JobStatus::Completed && after_event(m, e).finished[0].summary == c.summary,
        e matches JobEvent::Failed(f) ==> after_event(m, e).finished[0].status
            == JobStatus::Failed && after_event(m, e).finished[0].summary == f.error,
        after_event(m, e).finished.len() <= RECENT_FINISHED_CAP,
        after_event(m, e).finished.len() == if m.finished.len() < RECENT_FINISHED_CAP {
            m.finished.len() + 1
        } else {
            RECENT_FINISHED_CAP as nat
        },
{
}

/// Law: progress events never add or remove in-flight jobs and leave the ring alone; the
/// updated job is running with the reported progress and message.
pub proof fn progress_event_keeps_pending_jobs<P>(m: JobManagerView<P>, p: JobProgressEvent<P>)
    ensures
        after_event(m, JobEvent::Progress(p)).jobs.dom() == m.jobs.dom(),
        after_event(m, JobEvent::Progress(p)).finished == m.finished,
        m.jobs.contains_key(p.job_id) ==> {
            let j = after_event(m, JobEvent::Progress(p)).jobs[p.job_id];
            &&& j.status == JobStatus::Running
            &&& j.progress == p.progress
            &&& j.message == p.message
            &&& j.label == m.jobs[p.job_id].label
        },
{
    if m.jobs.contains_key(p.job_id) {
        assert(m.jobs.dom().insert(p.job_id) =~= m.jobs.dom());
    }
}

} // verus!
