//! A pool of workers that take search jobs from one queue and add what
//! they find to one collection of hits.
//!
//! The pool here is the rule that a pool of threads follows, as a state
//! that moves one step at a time: which worker takes which job, when a
//! worker stops, and what the collection holds after each step. Which
//! worker moves next is the caller's choice, and stands for the scheduler.

use crate::config::{run_result, Config, ConfigView};
use crate::hits::{GreprMatch, MatchView};
use crate::target::{target_path, target_search, Directory, File, SearchTarget, TargetView};
use crate::walk::{
    begun, fed, lemma_walk_finds_what_run_finds, root_children, root_replies, Walk,
};
use crate::tree::{find, lookup, Entry};
use std::collections::VecDeque;
use vstd::multiset::Multiset;
use vstd::seq_lib::lemma_multiset_commutative;
use vstd::prelude::*;

verus! {

/// What a [`Job`] stands for.
pub struct JobView {
    /// The target that the job searches.
    pub target: TargetView,
    /// The string that is searched for.
    pub query: Seq<char>,
    /// Whether the search goes into the directories below a directory.
    pub recursive: bool,
}

/// One search that waits to be done: a target and what to search it for.
pub struct Job {
    target: SearchTarget,
    query: String,
    recursive: bool,
}

impl View for Job {
    type V = JobView;

    closed spec fn view(&self) -> JobView {
        JobView { target: self.target@, query: self.query@, recursive: self.recursive }
    }
}

impl DeepView for Job {
    type V = JobView;

    open spec fn deep_view(&self) -> JobView {
        self@
    }
}

/// The hits that a job adds when it is run: those of its target's search,
/// and none where the target could not be read or has no entry among
/// `roots`.
pub open spec fn job_hits(job: JobView, roots: Seq<Entry>) -> Seq<MatchView> {
    match lookup(roots, target_path(job.target)) {
        Some(node) => match target_search(job.target, job.query, job.recursive, node) {
            Some(hits) => hits,
            None => Seq::empty(),
        },
        None => Seq::empty(),
    }
}

/// The configuration of a run that does what a job does: it searches the
/// job's target, and nothing else.
pub open spec fn job_config(job: JobView) -> ConfigView {
    ConfigView {
        query: job.query,
        files: match job.target {
            TargetView::File(path) => seq![path],
            TargetView::Directory(_) => Seq::empty(),
        },
        directories: match job.target {
            TargetView::File(_) => Seq::empty(),
            TargetView::Directory(path) => seq![path],
        },
        recursive: job.recursive,
    }
}

/// A run over a job's configuration finds the job's hits.
pub proof fn lemma_job_config(job: JobView, roots: Seq<Entry>)
    ensures
        run_result(job_config(job), roots) == job_hits(job, roots),
{
    let none = Seq::<Seq<char>>::empty();
    assert(crate::config::found_in_files(none, job.query, roots) =~= Seq::<MatchView>::empty());
    assert(crate::config::found_in_directories(none, job.query, job.recursive, roots)
        =~= Seq::<MatchView>::empty());
    match job.target {
        TargetView::File(path) => {
            assert(seq![path].drop_last() =~= none);
        },
        TargetView::Directory(path) => {
            assert(seq![path].drop_last() =~= none);
        },
    }
}

/// The walk of a job finds the job's hits: answered from what stands at
/// the job's target and below it, the walk comes to its end and has then
/// found what the job adds when it is run on the same files and
/// directories read ahead.
pub proof fn lemma_job_walk(job: JobView, roots: Seq<Entry>)
    ensures
        fed(
            begun(job_config(job)),
            root_replies(root_children(job_config(job)), roots, job.recursive),
        ).stack.len() == 0,
        fed(
            begun(job_config(job)),
            root_replies(root_children(job_config(job)), roots, job.recursive),
        ).found == job_hits(job, roots),
{
    lemma_walk_finds_what_run_finds(job_config(job), roots);
    lemma_job_config(job, roots);
}

impl Job {
    /// The walk that does the job, read by read: it searches the job's
    /// target, and nothing else.
    pub fn walk(&self) -> (walk: Walk)
        ensures
            walk@ == begun(job_config(self@)),
            crate::walk::ready(walk@),
    {
        let mut files: Vec<File> = Vec::new();
        let mut directories: Vec<Directory> = Vec::new();
        match &self.target {
            SearchTarget::File(file) => {
                files.push(File::new(file.pathname()));
            },
            SearchTarget::Directory(directory) => {
                directories.push(Directory::new(directory.pathname()));
            },
        }
        let config = Config {
            query: self.query.clone(),
            files,
            directories,
            recursive: self.recursive,
        };
        assert(config@.files =~= job_config(self@).files);
        assert(config@.directories =~= job_config(self@).directories);
        Walk::start(config)
    }

    /// The job that searches `target` for `query`.
    pub fn new(target: SearchTarget, query: &str, recursive: bool) -> (job: Job)
        ensures
            job@ == (JobView { target: target@, query: query@, recursive }),
    {
        Job { target, query: query.to_owned(), recursive }
    }

    /// The target that the job searches.
    pub fn target(&self) -> (target: &SearchTarget)
        ensures
            target@ == self@.target,
    {
        &self.target
    }

    /// The string that the job searches for.
    pub fn query(&self) -> (query: &str)
        ensures
            query@ == self@.query,
    {
        self.query.as_str()
    }

    /// Whether the job's search goes into the directories below a
    /// directory.
    pub fn recursive(&self) -> (recursive: bool)
        ensures
            recursive == self@.recursive,
    {
        self.recursive
    }

    /// Runs the job: searches its target and adds the hits to the end of
    /// `matches`. Where the search fails, `matches` stays as it is.
    ///
    /// `roots` holds what was read at the target, under its pathname.
    pub fn run(&self, roots: &Vec<Entry>, matches: &mut Vec<GreprMatch>)
        ensures
            final(matches).deep_view() == old(matches).deep_view() + job_hits(self@, roots@),
    {
        let mut added: Vec<GreprMatch> = Vec::new();
        if let Some(node) = find(roots, self.target.pathname()) {
            if let Some(hits) = self.target.search(self.query.as_str(), self.recursive, node) {
                added = hits;
            }
        }
        matches.append(&mut added);
    }
}

/// Where a worker stands.
#[derive(Clone, Copy, PartialEq, Eq, Structural)]
pub enum WorkerState {
    /// Waiting for a job.
    Idle,
    /// Running a job.
    Executing,
    /// Gone for good: the queue was closed and held nothing more.
    Stopped,
}

/// What a worker got when it asked the queue for a job.
pub enum Delivery {
    /// A job. No other worker gets the same one.
    Job(Job),
    /// Nothing, though the queue is still open.
    Nothing,
    /// Nothing, and the queue is closed: no job will ever come.
    Closed,
}

/// What a worker does next.
pub enum Directive {
    /// Run this job, then ask again.
    Run(Job),
    /// Ask again.
    Retry,
    /// Leave the loop.
    Exit,
}

/// One worker of a pool.
pub struct Worker {
    id: usize,
    state: WorkerState,
}

impl Worker {
    /// The number of the worker within its pool.
    pub closed spec fn spec_id(&self) -> usize {
        self.id
    }

    /// Where the worker stands.
    pub closed spec fn spec_state(&self) -> WorkerState {
        self.state
    }

    /// A worker that waits for its first job.
    pub fn new(id: usize) -> (worker: Worker)
        ensures
            worker.spec_id() == id,
            worker.spec_state() == WorkerState::Idle,
    {
        Worker { id, state: WorkerState::Idle }
    }

    /// The number of the worker within its pool.
    #[verifier::when_used_as_spec(spec_id)]
    pub fn id(&self) -> (id: usize)
        ensures
            id == self.spec_id(),
    {
        self.id
    }

    /// Where the worker stands.
    #[verifier::when_used_as_spec(spec_state)]
    pub fn state(&self) -> (state: WorkerState)
        ensures
            state == self.spec_state(),
    {
        self.state
    }

    /// What a waiting worker does with what the queue gave it.
    ///
    /// A job is run. Nothing from an open queue is no reason to stop: the
    /// worker asks again. Only a closed queue ends the worker.
    pub fn receive(&mut self, delivery: Delivery) -> (directive: Directive)
        requires
            old(self).state() == WorkerState::Idle,
        ensures
            final(self).id() == old(self).id(),
            match delivery {
                Delivery::Job(job) => final(self).state() == WorkerState::Executing && directive
                    == Directive::Run(job),
                Delivery::Nothing => final(self).state() == WorkerState::Idle
                    && directive is Retry,
                Delivery::Closed => final(self).state() == WorkerState::Stopped
                    && directive is Exit,
            },
    {
        match delivery {
            Delivery::Job(job) => {
                self.state = WorkerState::Executing;
                Directive::Run(job)
            },
            Delivery::Nothing => Directive::Retry,
            Delivery::Closed => {
                self.state = WorkerState::Stopped;
                Directive::Exit
            },
        }
    }

    /// The worker has run its job and waits for the next.
    pub fn finish(&mut self)
        requires
            old(self).state() == WorkerState::Executing,
        ensures
            final(self).id() == old(self).id(),
            final(self).state() == WorkerState::Idle,
    {
        self.state = WorkerState::Idle;
    }
}

/// What one worker of a [`ThreadPool`] stands for.
pub struct WorkerView {
    /// The number of the worker within its pool.
    pub id: usize,
    /// Where the worker stands.
    pub state: WorkerState,
    /// The job that the worker runs, where it runs one.
    pub job: Option<JobView>,
}

/// What a [`ThreadPool`] stands for.
pub struct PoolView {
    /// The workers, by number.
    pub workers: Seq<WorkerView>,
    /// The jobs that wait, the oldest first.
    pub queue: Seq<JobView>,
    /// Whether jobs can still be handed in.
    pub open: bool,
    /// The hits added so far.
    pub matches: Seq<MatchView>,
}

/// What holds of every pool: it has a worker, each known by its place;
/// a worker holds a job exactly while it runs one; and a worker has
/// stopped only where the queue is closed and empty.
pub open spec fn consistent(pool: PoolView) -> bool {
    &&& pool.workers.len() > 0
    &&& forall|i: int| 0 <= i < pool.workers.len() ==> (#[trigger] pool.workers[i]).id == i
    &&& forall|i: int|
        0 <= i < pool.workers.len() ==> ((#[trigger] pool.workers[i]).state
            == WorkerState::Executing <==> pool.workers[i].job is Some)
    &&& forall|i: int|
        0 <= i < pool.workers.len() && (#[trigger] pool.workers[i]).state == WorkerState::Stopped
            ==> !pool.open && pool.queue.len() == 0
}

/// A new pool of `n` workers, all waiting, over the hits in `matches`.
pub open spec fn started(n: usize, matches: Seq<MatchView>) -> PoolView {
    PoolView {
        workers: Seq::new(
            n as nat,
            |i: int| WorkerView { id: i as usize, state: WorkerState::Idle, job: None },
        ),
        queue: Seq::empty(),
        open: true,
        matches,
    }
}

/// The pool after `job` was handed in: it waits behind the others.
pub open spec fn submitted(pool: PoolView, job: JobView) -> PoolView {
    PoolView { queue: pool.queue.push(job), ..pool }
}

/// The pool after its queue was closed.
pub open spec fn closed(pool: PoolView) -> PoolView {
    PoolView { open: false, ..pool }
}

/// The pool after worker `w` made its next move.
///
/// A waiting worker takes the oldest job that waits. Where none waits it
/// stops if the queue is closed, and goes on waiting if it is open. A
/// worker that runs a job ends it: the job's hits are added behind those
/// that the pool holds, and the worker waits again. A worker that has
/// stopped stays so, and a number that names no worker moves nothing.
pub open spec fn stepped(pool: PoolView, w: int, roots: Seq<Entry>) -> PoolView {
    if 0 <= w < pool.workers.len() {
        let worker = pool.workers[w];
        match worker.state {
            WorkerState::Idle => if pool.queue.len() > 0 {
                PoolView {
                    workers: pool.workers.update(
                        w,
                        WorkerView {
                            state: WorkerState::Executing,
                            job: Some(pool.queue[0]),
                            ..worker
                        },
                    ),
                    queue: pool.queue.drop_first(),
                    ..pool
                }
            } else if !pool.open {
                PoolView {
                    workers: pool.workers.update(
                        w,
                        WorkerView { state: WorkerState::Stopped, ..worker },
                    ),
                    ..pool
                }
            } else {
                pool
            },
            WorkerState::Executing => PoolView {
                workers: pool.workers.update(
                    w,
                    WorkerView { state: WorkerState::Idle, job: None, ..worker },
                ),
                matches: pool.matches + match worker.job {
                    Some(job) => job_hits(job, roots),
                    None => Seq::empty(),
                },
                ..pool
            },
            WorkerState::Stopped => pool,
        }
    } else {
        pool
    }
}

/// The hits of `jobs`, job after job.
pub open spec fn hits_of_jobs(jobs: Seq<JobView>, roots: Seq<Entry>) -> Seq<MatchView>
    decreases jobs.len(),
{
    if jobs.len() == 0 {
        Seq::empty()
    } else {
        hits_of_jobs(jobs.drop_last(), roots) + job_hits(jobs.last(), roots)
    }
}

/// The hits of the job that a worker runs, and none where it runs none.
pub open spec fn worker_hits(worker: WorkerView, roots: Seq<Entry>) -> Seq<MatchView> {
    match worker.job {
        Some(job) => job_hits(job, roots),
        None => Seq::empty(),
    }
}

/// The hits of the jobs that `workers` run, worker after worker.
pub open spec fn hits_of_workers(workers: Seq<WorkerView>, roots: Seq<Entry>) -> Seq<MatchView>
    decreases workers.len(),
{
    if workers.len() == 0 {
        Seq::empty()
    } else {
        hits_of_workers(workers.drop_last(), roots) + worker_hits(workers.last(), roots)
    }
}

/// The hits that the pool has taken on and not yet added: those of the
/// jobs that its workers run, then those of the jobs that wait.
pub open spec fn pending(pool: PoolView, roots: Seq<Entry>) -> Seq<MatchView> {
    hits_of_workers(pool.workers, roots) + hits_of_jobs(pool.queue, roots)
}

/// Every hit that the pool holds or has yet to add, each as often as it
/// was or will be found, in no order.
pub open spec fn owed(pool: PoolView, roots: Seq<Entry>) -> Multiset<MatchView> {
    (pool.matches + pending(pool, roots)).to_multiset()
}

/// The pool is at rest for good: the queue is closed and empty, and every
/// worker has stopped.
pub open spec fn settled(pool: PoolView) -> bool {
    &&& !pool.open
    &&& pool.queue.len() == 0
    &&& forall|i: int|
        0 <= i < pool.workers.len() ==> (#[trigger] pool.workers[i]).state == WorkerState::Stopped
            && pool.workers[i].job is None
}

/// The pool after it was torn down: its queue is closed, what was pending
/// has been added, first what the workers ran and then what waited, and
/// every worker has stopped.
pub open spec fn joined(pool: PoolView, roots: Seq<Entry>) -> PoolView {
    PoolView {
        workers: Seq::new(
            pool.workers.len(),
            |i: int| WorkerView { id: pool.workers[i].id, state: WorkerState::Stopped, job: None },
        ),
        queue: Seq::empty(),
        open: false,
        matches: pool.matches + pending(pool, roots),
    }
}

/// Something that happens to a pool before it is torn down.
pub enum PoolEvent {
    /// A job is handed in.
    Submit(JobView),
    /// The worker of this number makes its next move.
    Step(int),
}

/// The pool after `events` happened to it, in their order.
pub open spec fn after(pool: PoolView, events: Seq<PoolEvent>, roots: Seq<Entry>) -> PoolView
    decreases events.len(),
{
    if events.len() == 0 {
        pool
    } else {
        let before = after(pool, events.drop_last(), roots);
        match events.last() {
            PoolEvent::Submit(job) => submitted(before, job),
            PoolEvent::Step(w) => stepped(before, w, roots),
        }
    }
}

/// The jobs handed in among `events`, in their order.
pub open spec fn jobs_among(events: Seq<PoolEvent>) -> Seq<JobView>
    decreases events.len(),
{
    if events.len() == 0 {
        Seq::empty()
    } else {
        match events.last() {
            PoolEvent::Submit(job) => jobs_among(events.drop_last()).push(job),
            PoolEvent::Step(_) => jobs_among(events.drop_last()),
        }
    }
}

/// The hits of the jobs of two sequences in a row are those of the first
/// followed by those of the second.
pub proof fn lemma_hits_of_jobs_add(a: Seq<JobView>, b: Seq<JobView>, roots: Seq<Entry>)
    ensures
        hits_of_jobs(a + b, roots) == hits_of_jobs(a, roots) + hits_of_jobs(b, roots),
    decreases b.len(),
{
    if b.len() > 0 {
        lemma_hits_of_jobs_add(a, b.drop_last(), roots);
        assert((a + b).drop_last() =~= a + b.drop_last());
    }
}

/// No hits, in no order, are no hits.
proof fn lemma_no_hits()
    ensures
        Seq::<MatchView>::empty().to_multiset() == Multiset::<MatchView>::empty(),
{
    let none = Seq::<MatchView>::empty();
    none.to_multiset_ensures();
}

/// Where one worker takes or ends a job, the hits that the workers owe
/// change by that worker's alone.
proof fn lemma_hits_of_workers_update(
    workers: Seq<WorkerView>,
    w: int,
    next: WorkerView,
    roots: Seq<Entry>,
)
    requires
        0 <= w < workers.len(),
    ensures
        hits_of_workers(workers.update(w, next), roots).to_multiset().add(
            worker_hits(workers[w], roots).to_multiset(),
        ) == hits_of_workers(workers, roots).to_multiset().add(
            worker_hits(next, roots).to_multiset(),
        ),
    decreases workers.len(),
{
    let head = workers.drop_last();
    let updated = workers.update(w, next);
    lemma_multiset_commutative(hits_of_workers(head, roots), worker_hits(workers.last(), roots));
    if w == workers.len() - 1 {
        assert(updated.drop_last() =~= head);
        lemma_multiset_commutative(hits_of_workers(head, roots), worker_hits(next, roots));
    } else {
        lemma_hits_of_workers_update(head, w, next, roots);
        assert(updated.drop_last() =~= head.update(w, next));
        lemma_multiset_commutative(
            hits_of_workers(head.update(w, next), roots),
            worker_hits(workers.last(), roots),
        );
        let lhs_inner = hits_of_workers(head.update(w, next), roots).to_multiset().add(
            worker_hits(workers[w], roots).to_multiset(),
        );
        let tail = worker_hits(workers.last(), roots).to_multiset();
        assert(hits_of_workers(updated, roots).to_multiset().add(
            worker_hits(workers[w], roots).to_multiset(),
        ) =~= lhs_inner.add(tail));
    }
}

/// What the pool holds and owes, part by part.
proof fn lemma_owed_parts(pool: PoolView, roots: Seq<Entry>)
    ensures
        owed(pool, roots) == pool.matches.to_multiset().add(
            hits_of_workers(pool.workers, roots).to_multiset(),
        ).add(hits_of_jobs(pool.queue, roots).to_multiset()),
{
    lemma_multiset_commutative(pool.matches, pending(pool, roots));
    lemma_multiset_commutative(
        hits_of_workers(pool.workers, roots),
        hits_of_jobs(pool.queue, roots),
    );
}

/// A move of a worker neither loses a hit nor adds one twice: what the
/// pool holds and owes together stays the same, whichever worker moves.
pub proof fn lemma_step_keeps_owed(pool: PoolView, w: int, roots: Seq<Entry>)
    requires
        consistent(pool),
    ensures
        consistent(stepped(pool, w, roots)),
        stepped(pool, w, roots).open == pool.open,
        owed(stepped(pool, w, roots), roots) == owed(pool, roots),
{
    let next = stepped(pool, w, roots);
    lemma_no_hits();
    if 0 <= w < pool.workers.len() {
        let worker = pool.workers[w];
        lemma_owed_parts(pool, roots);
        lemma_owed_parts(next, roots);
        match worker.state {
            WorkerState::Idle => {
                if pool.queue.len() > 0 {
                    let job = pool.queue[0];
                    let taken = WorkerView {
                        state: WorkerState::Executing,
                        job: Some(job),
                        ..worker
                    };
                    lemma_hits_of_workers_update(pool.workers, w, taken, roots);
                    assert(pool.queue =~= seq![job] + pool.queue.drop_first());
                    lemma_hits_of_jobs_add(seq![job], pool.queue.drop_first(), roots);
                    assert(seq![job].drop_last() =~= Seq::<JobView>::empty());
                    assert(hits_of_jobs(Seq::<JobView>::empty(), roots) =~= Seq::<
                        MatchView,
                    >::empty());
                    lemma_multiset_commutative(
                        job_hits(job, roots),
                        hits_of_jobs(pool.queue.drop_first(), roots),
                    );
                    let hw = hits_of_workers(pool.workers, roots).to_multiset();
                    let hw_next = hits_of_workers(next.workers, roots).to_multiset();
                    let none = Seq::<MatchView>::empty().to_multiset();
                    let got = job_hits(job, roots).to_multiset();
                    assert forall|m: MatchView| owed(next, roots).count(m) == owed(
                        pool,
                        roots,
                    ).count(m) by {
                        assert(hw_next.add(none).count(m) == hw.add(got).count(m));
                    }
                } else if !pool.open {
                    let gone = WorkerView { state: WorkerState::Stopped, ..worker };
                    lemma_hits_of_workers_update(pool.workers, w, gone, roots);
                    let hw = hits_of_workers(pool.workers, roots).to_multiset();
                    let hw_next = hits_of_workers(next.workers, roots).to_multiset();
                    let none = Seq::<MatchView>::empty().to_multiset();
                    assert forall|m: MatchView| owed(next, roots).count(m) == owed(
                        pool,
                        roots,
                    ).count(m) by {
                        assert(hw_next.add(none).count(m) == hw.add(none).count(m));
                    }
                }
            },
            WorkerState::Executing => {
                let rested = WorkerView { state: WorkerState::Idle, job: None, ..worker };
                lemma_hits_of_workers_update(pool.workers, w, rested, roots);
                lemma_multiset_commutative(pool.matches, worker_hits(worker, roots));
                let hw = hits_of_workers(pool.workers, roots).to_multiset();
                let hw_next = hits_of_workers(next.workers, roots).to_multiset();
                let none = Seq::<MatchView>::empty().to_multiset();
                let had = worker_hits(worker, roots).to_multiset();
                assert forall|m: MatchView| owed(next, roots).count(m) == owed(pool, roots).count(
                    m,
                ) by {
                    assert(hw_next.add(had).count(m) == hw.add(none).count(m));
                }
            },
            WorkerState::Stopped => {},
        }
    }
}

/// A job that is handed in is owed from then on, once.
pub proof fn lemma_submit_adds_owed(pool: PoolView, job: JobView, roots: Seq<Entry>)
    requires
        consistent(pool),
        pool.open,
    ensures
        consistent(submitted(pool, job)),
        submitted(pool, job).open,
        owed(submitted(pool, job), roots) == owed(pool, roots).add(
            job_hits(job, roots).to_multiset(),
        ),
{
    let next = submitted(pool, job);
    lemma_owed_parts(pool, roots);
    lemma_owed_parts(next, roots);
    assert(next.queue.drop_last() =~= pool.queue);
    lemma_multiset_commutative(hits_of_jobs(pool.queue, roots), job_hits(job, roots));
}

/// Whatever happens to an open pool, in whatever order, it holds and owes
/// what it did before and the hits of each job handed in since, once.
pub proof fn lemma_events_keep_owed(pool: PoolView, events: Seq<PoolEvent>, roots: Seq<Entry>)
    requires
        consistent(pool),
        pool.open,
    ensures
        consistent(after(pool, events, roots)),
        after(pool, events, roots).open,
        owed(after(pool, events, roots), roots) == owed(pool, roots).add(
            hits_of_jobs(jobs_among(events), roots).to_multiset(),
        ),
    decreases events.len(),
{
    lemma_no_hits();
    if events.len() > 0 {
        let head = events.drop_last();
        let before = after(pool, head, roots);
        lemma_events_keep_owed(pool, head, roots);
        match events.last() {
            PoolEvent::Submit(job) => {
                lemma_submit_adds_owed(before, job, roots);
                assert(jobs_among(events).drop_last() =~= jobs_among(head));
                lemma_multiset_commutative(
                    hits_of_jobs(jobs_among(head), roots),
                    job_hits(job, roots),
                );
            },
            PoolEvent::Step(w) => {
                lemma_step_keeps_owed(before, w, roots);
            },
        }
    }
}

/// Jobs handed to a pool of any size, taken and run in any order, each add
/// their hits once by the time the pool is torn down: the pool then holds
/// what it held at the start and the hits of each job, and as many hits as
/// these are together.
pub proof fn lemma_join_adds_every_job_once(
    n: usize,
    base: Seq<MatchView>,
    events: Seq<PoolEvent>,
    roots: Seq<Entry>,
)
    requires
        n > 0,
    ensures
        settled(joined(after(started(n, base), events, roots), roots)),
        joined(after(started(n, base), events, roots), roots).matches.to_multiset()
            == base.to_multiset().add(hits_of_jobs(jobs_among(events), roots).to_multiset()),
        joined(after(started(n, base), events, roots), roots).matches.len() == base.len()
            + hits_of_jobs(jobs_among(events), roots).len(),
{
    let first = started(n, base);
    let last = after(first, events, roots);
    let done = hits_of_jobs(jobs_among(events), roots);
    lemma_events_keep_owed(first, events, roots);
    lemma_started_owes_nothing(n, base, roots);
    lemma_multiset_commutative(base, done);
    assert((base + done).to_multiset().len() == (base + done).len()) by {
        (base + done).to_multiset_ensures();
    }
    assert(joined(last, roots).matches.to_multiset().len() == joined(last, roots).matches.len())
        by {
        joined(last, roots).matches.to_multiset_ensures();
    }
}

/// A new pool owes nothing: it holds the hits that it was given.
pub proof fn lemma_started_owes_nothing(n: usize, base: Seq<MatchView>, roots: Seq<Entry>)
    requires
        n > 0,
    ensures
        consistent(started(n, base)),
        owed(started(n, base), roots) == base.to_multiset(),
{
    let pool = started(n, base);
    lemma_idle_workers_owe_nothing(pool.workers, roots);
}

/// Workers that run no job owe no hits.
proof fn lemma_idle_workers_owe_nothing(workers: Seq<WorkerView>, roots: Seq<Entry>)
    requires
        forall|i: int| 0 <= i < workers.len() ==> (#[trigger] workers[i]).job is None,
    ensures
        hits_of_workers(workers, roots) == Seq::<MatchView>::empty(),
    decreases workers.len(),
{
    if workers.len() > 0 {
        lemma_idle_workers_owe_nothing(workers.drop_last(), roots);
    }
}

/// After the pool is torn down nothing moves any more: whichever worker
/// is asked to move, the pool and the hits that it holds stay as they are,
/// and it owes nothing.
pub proof fn lemma_settled_stays(pool: PoolView, w: int, roots: Seq<Entry>)
    requires
        settled(pool),
    ensures
        stepped(pool, w, roots) == pool,
        owed(pool, roots) == pool.matches.to_multiset(),
{
    lemma_idle_workers_owe_nothing(pool.workers, roots);
}

/// One place of the pool: a worker, and the job that it runs.
struct Slot {
    worker: Worker,
    job: Option<Job>,
}

impl View for Slot {
    type V = WorkerView;

    closed spec fn view(&self) -> WorkerView {
        WorkerView { id: self.worker.id, state: self.worker.state, job: self.job.deep_view() }
    }
}

impl DeepView for Slot {
    type V = WorkerView;

    closed spec fn deep_view(&self) -> WorkerView {
        self@
    }
}

/// A fixed number of workers, one queue of jobs, and one collection of
/// hits that the jobs add to.
pub struct ThreadPool {
    slots: Vec<Slot>,
    queue: VecDeque<Job>,
    open: bool,
    matches: Vec<GreprMatch>,
}

impl View for ThreadPool {
    type V = PoolView;

    closed spec fn view(&self) -> PoolView {
        PoolView {
            workers: self.slots.deep_view(),
            queue: self.queue.deep_view(),
            open: self.open,
            matches: self.matches.deep_view(),
        }
    }
}

impl ThreadPool {
    /// A pool of `n` workers, all waiting, that adds to the hits in
    /// `matches`.
    pub fn new(n: usize, matches: Vec<GreprMatch>) -> (pool: ThreadPool)
        requires
            n > 0,
        ensures
            pool@ == started(n, matches.deep_view()),
            consistent(pool@),
    {
        let mut slots: Vec<Slot> = Vec::new();
        let mut id: usize = 0;
        while id < n
            invariant
                id <= n,
                slots.len() == id,
                forall|i: int|
                    0 <= i < id ==> (#[trigger] slots.deep_view()[i]) == (WorkerView {
                        id: i as usize,
                        state: WorkerState::Idle,
                        job: None,
                    }),
            decreases n - id,
        {
            let ghost before = slots.deep_view();
            let slot = Slot { worker: Worker::new(id), job: None };
            slots.push(slot);
            assert forall|i: int| 0 <= i < id + 1 implies (#[trigger] slots.deep_view()[i])
                == (WorkerView { id: i as usize, state: WorkerState::Idle, job: None }) by {
                if i < id {
                    assert(slots.deep_view()[i] == before[i]);
                }
            }
            id += 1;
        }
        let pool = ThreadPool { slots, queue: VecDeque::new(), open: true, matches };
        assert(pool@.workers =~= started(n, matches.deep_view()).workers);
        assert(pool@.queue =~= Seq::<JobView>::empty());
        pool
    }

    /// Hands `job` in: it waits behind the jobs that wait already.
    pub fn execute(&mut self, job: Job)
        requires
            consistent(old(self)@),
            old(self)@.open,
        ensures
            final(self)@ == submitted(old(self)@, job@),
            consistent(final(self)@),
    {
        let ghost before = self.queue.deep_view();
        self.queue.push_back(job);
        assert(self.queue.deep_view() =~= before.push(job@));
    }

    /// Closes the queue: no job can be handed in any more. The workers go
    /// on until the jobs that wait are done.
    pub fn close(&mut self)
        requires
            consistent(old(self)@),
        ensures
            final(self)@ == closed(old(self)@),
            consistent(final(self)@),
    {
        self.open = false;
    }

    /// Worker `worker` makes its next move, as [`stepped`] says. The
    /// caller picks the worker, and so stands for the scheduler.
    ///
    /// `roots` holds what was read at each job's target, under its
    /// pathname.
    pub fn step(&mut self, worker: usize, roots: &Vec<Entry>)
        requires
            consistent(old(self)@),
        ensures
            final(self)@ == stepped(old(self)@, worker as int, roots@),
            consistent(final(self)@),
    {
        if worker >= self.slots.len() {
            return ;
        }
        let ghost before = self@;
        let state = self.slots[worker].worker.state();
        match state {
            WorkerState::Idle => {
                let delivery = match self.queue.pop_front() {
                    Some(job) => Delivery::Job(job),
                    None => if self.open {
                        Delivery::Nothing
                    } else {
                        Delivery::Closed
                    },
                };
                let slot = &mut self.slots[worker];
                match slot.worker.receive(delivery) {
                    Directive::Run(job) => {
                        slot.job = Some(job);
                    },
                    _ => {},
                }
                proof {
                    assert(self@.workers =~= stepped(before, worker as int, roots@).workers);
                    assert(self@.queue =~= stepped(before, worker as int, roots@).queue);
                }
            },
            WorkerState::Executing => {
                let slot = &mut self.slots[worker];
                let job = slot.job.take();
                slot.worker.finish();
                if let Some(job) = job {
                    job.run(roots, &mut self.matches);
                }
                proof {
                    assert(self@.workers =~= stepped(before, worker as int, roots@).workers);
                }
            },
            WorkerState::Stopped => {},
        }
    }

    /// Tears the pool down: closes the queue, lets every worker end the
    /// job that it runs, has the jobs that wait done in their order, and
    /// stops every worker. It returns when all that is done.
    pub fn join(&mut self, roots: &Vec<Entry>)
        requires
            consistent(old(self)@),
        ensures
            final(self)@ == joined(old(self)@, roots@),
            consistent(final(self)@),
            settled(final(self)@),
    {
        let ghost before = self@;
        let ghost n = self.slots.len();
        self.open = false;
        let mut w: usize = 0;
        while w < self.slots.len()
            invariant
                w <= self.slots.len() == n,
                n == before.workers.len(),
                !self.open,
                self.queue.deep_view() == before.queue,
                self.matches.deep_view() == before.matches + hits_of_workers(
                    before.workers.take(w as int),
                    roots@,
                ),
                forall|i: int|
                    w <= i < n ==> (#[trigger] self.slots.deep_view()[i]) == before.workers[i],
                forall|i: int|
                    0 <= i < w ==> (#[trigger] self.slots.deep_view()[i]).id == before.workers[i].id
                        && self.slots.deep_view()[i].job is None,
            decreases n - w,
        {
            let ghost slots_before = self.slots.deep_view();
            proof {
                let upto = before.workers.take(w + 1);
                assert(upto.drop_last() =~= before.workers.take(w as int));
                assert(slots_before[w as int] == before.workers[w as int]);
            }
            let slot = &mut self.slots[w];
            let job = slot.job.take();
            if let Some(job) = job {
                job.run(roots, &mut self.matches);
            }
            proof {
                assert forall|i: int| w + 1 <= i < n implies (#[trigger] self.slots.deep_view()[i])
                    == before.workers[i] by {
                    assert(self.slots.deep_view()[i] == slots_before[i]);
                }
                assert forall|i: int| 0 <= i < w + 1 implies (#[trigger] self.slots.deep_view()[i]).id
                    == before.workers[i].id && self.slots.deep_view()[i].job is None by {
                    if i < w {
                        assert(self.slots.deep_view()[i] == slots_before[i]);
                    }
                }
            }
            w += 1;
        }
        let ghost from_workers = self.matches.deep_view();
        proof {
            assert(before.workers.take(w as int) =~= before.workers);
            assert(before.queue.skip(0) =~= before.queue);
        }
        let ghost mut done: int = 0;
        while self.queue.len() > 0
            invariant
                0 <= done <= before.queue.len(),
                !self.open,
                self.slots.len() == n,
                n == before.workers.len(),
                forall|i: int|
                    0 <= i < n ==> (#[trigger] self.slots.deep_view()[i]).id == before.workers[i].id
                        && self.slots.deep_view()[i].job is None,
                self.queue.deep_view() == before.queue.skip(done),
                self.matches.deep_view() == from_workers + hits_of_jobs(
                    before.queue.take(done),
                    roots@,
                ),
            decreases self.queue.len(),
        {
            let ghost queue_before = self.queue.deep_view();
            let ghost raw = self.queue@;
            assert(queue_before.len() == raw.len());
            assert(queue_before[0] == raw[0]@);
            let job = self.queue.pop_front().unwrap();
            proof {
                assert forall|i: int| 0 <= i < self.queue@.len() implies (
                #[trigger] self.queue.deep_view()[i]) == queue_before[i + 1] by {}
                let upto = before.queue.take(done + 1);
                assert(upto.drop_last() =~= before.queue.take(done));
            }
            job.run(roots, &mut self.matches);
            proof {
                done = done + 1;
            }
        }
        let mut v: usize = 0;
        while v < self.slots.len()
            invariant
                v <= self.slots.len() == n,
                n == before.workers.len(),
                !self.open,
                self.queue.deep_view() == Seq::<JobView>::empty(),
                self.matches.deep_view() == before.matches + pending(before, roots@),
                forall|i: int|
                    0 <= i < n ==> (#[trigger] self.slots.deep_view()[i]).id == before.workers[i].id
                        && self.slots.deep_view()[i].job is None,
                forall|i: int|
                    0 <= i < v ==> (#[trigger] self.slots.deep_view()[i]).state
                        == WorkerState::Stopped,
            decreases n - v,
        {
            let ghost slots_before = self.slots.deep_view();
            let slot = &mut self.slots[v];
            slot.worker.state = WorkerState::Stopped;
            proof {
                assert forall|i: int| 0 <= i < n implies (#[trigger] self.slots.deep_view()[i]).id
                    == before.workers[i].id && self.slots.deep_view()[i].job is None by {
                    assert(self.slots.deep_view()[i].id == slots_before[i].id);
                }
                assert forall|i: int| 0 <= i < v + 1 implies (#[trigger] self.slots.deep_view()[i]).state
                    == WorkerState::Stopped by {
                    if i < v {
                        assert(self.slots.deep_view()[i] == slots_before[i]);
                    }
                }
            }
            v += 1;
        }
        proof {
            assert(self@.workers =~= joined(before, roots@).workers);
        }
    }

    /// The number of workers.
    pub fn workers(&self) -> (n: usize)
        ensures
            n == self@.workers.len(),
    {
        self.slots.len()
    }

    /// Where worker `worker` stands.
    pub fn state_of(&self, worker: usize) -> (state: WorkerState)
        requires
            worker < self@.workers.len(),
        ensures
            state == self@.workers[worker as int].state,
    {
        self.slots[worker].worker.state()
    }

    /// The number of jobs that wait.
    pub fn waiting(&self) -> (n: usize)
        ensures
            n == self@.queue.len(),
    {
        self.queue.len()
    }

    /// Whether jobs can still be handed in.
    pub fn is_open(&self) -> (open: bool)
        ensures
            open == self@.open,
    {
        self.open
    }

    /// The hits added so far.
    pub fn matches(&self) -> (matches: &Vec<GreprMatch>)
        ensures
            matches.deep_view() == self@.matches,
    {
        &self.matches
    }

    /// Gives up the pool for the hits that it holds.
    pub fn into_matches(self) -> (matches: Vec<GreprMatch>)
        ensures
            matches.deep_view() == self@.matches,
    {
        self.matches
    }
}

} // verus!
