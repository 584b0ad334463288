//! The state of the job centre: the jobs, the queues that they wait in, the
//! jobs that workers are busy with, and the workers that wait for a job.

use vstd::prelude::*;
use std::collections::HashMap;
use serde_json::Value;
use crate::peer::PeerAddr;
use super::job::{FullJob, JobId, JobPriority, JobValue, JobView, QueueName};
use super::request::Request;
use super::response::{Response, ResponseView};
use super::queue::{
    clone_value, is_greatest, queue_items, queue_new, queue_peek, queue_pop, queue_push,
    queue_remove, Queue,
};

verus! {

/// The name by which the caller knows a worker that waits for a job.
pub type WaiterId = u64;

/// What is kept of a job while it exists.
#[derive(Debug)]
pub struct JobRecord {
    pub value: JobValue,
    pub queue: QueueName,
}

/// A queue under its name.
#[derive(Debug)]
pub struct NamedQueue {
    name: QueueName,
    queue: Queue,
}

/// A job that a worker is busy with.
#[derive(Debug)]
pub struct WorkingJob {
    client: PeerAddr,
    id: JobId,
    priority: JobPriority,
    queue: QueueName,
}

/// A worker that waits for a job from one of some queues.
#[derive(Debug)]
pub struct Waiter {
    queues: Vec<QueueName>,
    id: WaiterId,
}

/// What is kept of a job, as a mathematical value.
pub struct RecordView {
    pub value: Value,
    pub queue: Seq<char>,
}

/// A queue as a mathematical value: its name, and its jobs with their
/// priorities.
pub struct QueueView {
    pub name: Seq<char>,
    pub items: Map<u64, u64>,
}

/// A job that a worker is busy with, as a mathematical value.
pub struct WorkingView {
    pub client: PeerAddr,
    pub id: u64,
    pub priority: u64,
    pub queue: Seq<char>,
}

/// A waiting worker as a mathematical value.
pub struct WaiterView {
    pub queues: Seq<Seq<char>>,
    pub id: u64,
}

/// The job centre as a mathematical value.
pub struct StateView {
    /// The identifier that the next job gets.
    pub next_id: u64,
    /// The jobs that exist.
    pub jobs: Map<u64, RecordView>,
    /// The queues, in the order in which they were first used.
    pub queues: Seq<QueueView>,
    /// The jobs that workers are busy with, in the order in which they were
    /// handed out.
    pub working: Seq<WorkingView>,
    /// The workers that wait.
    pub waiting: Seq<WaiterView>,
}

impl View for JobRecord {
    type V = RecordView;

    open spec fn view(&self) -> RecordView {
        RecordView { value: self.value, queue: self.queue@ }
    }
}

impl View for NamedQueue {
    type V = QueueView;

    closed spec fn view(&self) -> QueueView {
        QueueView { name: self.name@, items: queue_items(self.queue) }
    }
}

impl View for WorkingJob {
    type V = WorkingView;

    closed spec fn view(&self) -> WorkingView {
        WorkingView {
            client: self.client,
            id: self.id,
            priority: self.priority,
            queue: self.queue@,
        }
    }
}

/// The names of a list, each as a mathematical value.
pub open spec fn name_views(names: Seq<String>) -> Seq<Seq<char>> {
    names.map_values(|name: String| name@)
}

impl View for Waiter {
    type V = WaiterView;

    closed spec fn view(&self) -> WaiterView {
        WaiterView { queues: name_views(self.queues@), id: self.id }
    }
}

/// The index of the first worker that waits for a job from the queue
/// `name`, or the number of workers where none does.
pub open spec fn first_waiter(waiting: Seq<WaiterView>, name: Seq<char>) -> int
    decreases waiting.len(),
{
    if waiting.len() == 0 || waiting[0].queues.contains(name) {
        0
    } else {
        1 + first_waiter(waiting.skip(1), name)
    }
}

/// The index of the queue `name`, or the number of queues where there is
/// none of that name.
pub open spec fn queue_index(queues: Seq<QueueView>, name: Seq<char>) -> int
    decreases queues.len(),
{
    if queues.len() == 0 || queues[0].name == name {
        0
    } else {
        1 + queue_index(queues.skip(1), name)
    }
}

/// The queues after the job `id` has entered the queue `name` with the
/// priority `priority`: a queue of that name is made where there is none.
pub open spec fn with_job(queues: Seq<QueueView>, name: Seq<char>, id: u64, priority: u64) -> Seq<
    QueueView,
> {
    let k = queue_index(queues, name);
    if k < queues.len() {
        queues.update(k, QueueView { name, items: queues[k].items.insert(id, priority) })
    } else {
        queues.push(QueueView { name, items: Map::<u64, u64>::empty().insert(id, priority) })
    }
}

/// The queues after the job `id` has left the queue `name`, if it was in
/// it.
pub open spec fn without_job(queues: Seq<QueueView>, name: Seq<char>, id: u64) -> Seq<QueueView> {
    let k = queue_index(queues, name);
    if k < queues.len() {
        queues.update(k, QueueView { name, items: queues[k].items.remove(id) })
    } else {
        queues
    }
}

/// A list without the element at `i`, whose place the last element takes.
pub open spec fn swap_removed<T>(list: Seq<T>, i: int) -> Seq<T> {
    list.update(i, list.last()).drop_last()
}

/// What becomes of a job that is ready to be worked on: where a worker
/// waits for a job from its queue, the first such worker gets it and waits
/// no longer; else the job enters its queue. The result is the state after
/// that, and the worker that got the job, if one did.
pub open spec fn placed(state: StateView, job: JobView) -> (StateView, Option<u64>) {
    let w = first_waiter(state.waiting, job.queue_name);
    if w < state.waiting.len() {
        (
            StateView { waiting: swap_removed(state.waiting, w), ..state },
            Some(state.waiting[w].id),
        )
    } else {
        (
            StateView {
                queues: with_job(state.queues, job.queue_name, job.id, job.priority),
                ..state
            },
            None,
        )
    }
}

/// The index of the first job in the list that the worker `client` is busy
/// with and that has the identifier `id`, or the list's length where there
/// is none.
pub open spec fn working_index(working: Seq<WorkingView>, client: PeerAddr, id: u64) -> int
    decreases working.len(),
{
    if working.len() == 0 || (working[0].client == client && working[0].id == id) {
        0
    } else {
        1 + working_index(working.skip(1), client, id)
    }
}

/// What `first_waiter` gives is the first index at which a worker waits for
/// the queue.
pub proof fn lemma_first_waiter(waiting: Seq<WaiterView>, name: Seq<char>)
    ensures
        0 <= first_waiter(waiting, name) <= waiting.len(),
        forall|i: int| 0 <= i < first_waiter(waiting, name) ==> !waiting[i].queues.contains(name),
        first_waiter(waiting, name) < waiting.len() ==> waiting[first_waiter(
            waiting,
            name,
        )].queues.contains(name),
    decreases waiting.len(),
{
    if waiting.len() > 0 && !waiting[0].queues.contains(name) {
        let tail = waiting.skip(1);
        lemma_first_waiter(tail, name);
        assert forall|i: int| 0 <= i < first_waiter(waiting, name) implies !waiting[i].queues.contains(
            name,
        ) by {
            if i > 0 {
                assert(waiting[i] == tail[i - 1]);
            }
        }
        if first_waiter(waiting, name) < waiting.len() {
            assert(waiting[first_waiter(waiting, name)] == tail[first_waiter(tail, name)]);
        }
    }
}

/// The first index at which a worker waits for the queue is what
/// `first_waiter` gives.
pub proof fn lemma_first_waiter_is(waiting: Seq<WaiterView>, name: Seq<char>, at: int)
    requires
        0 <= at <= waiting.len(),
        forall|i: int| 0 <= i < at ==> !waiting[i].queues.contains(name),
        at < waiting.len() ==> waiting[at].queues.contains(name),
    ensures
        first_waiter(waiting, name) == at,
{
    lemma_first_waiter(waiting, name);
    let found = first_waiter(waiting, name);
    if found < at {
        assert(!waiting[found].queues.contains(name));
    } else if found > at {
        assert(!waiting[at].queues.contains(name));
    }
}

/// What `queue_index` gives is the first index of a queue of that name.
pub proof fn lemma_queue_index(queues: Seq<QueueView>, name: Seq<char>)
    ensures
        0 <= queue_index(queues, name) <= queues.len(),
        forall|i: int| 0 <= i < queue_index(queues, name) ==> queues[i].name != name,
        queue_index(queues, name) < queues.len() ==> queues[queue_index(queues, name)].name
            == name,
    decreases queues.len(),
{
    if queues.len() > 0 && queues[0].name != name {
        let tail = queues.skip(1);
        lemma_queue_index(tail, name);
        assert forall|i: int| 0 <= i < queue_index(queues, name) implies queues[i].name
            != name by {
            if i > 0 {
                assert(queues[i] == tail[i - 1]);
            }
        }
        if queue_index(queues, name) < queues.len() {
            assert(queues[queue_index(queues, name)] == tail[queue_index(tail, name)]);
        }
    }
}

/// The first index of a queue of that name is what `queue_index` gives.
pub proof fn lemma_queue_index_is(queues: Seq<QueueView>, name: Seq<char>, at: int)
    requires
        0 <= at <= queues.len(),
        forall|i: int| 0 <= i < at ==> queues[i].name != name,
        at < queues.len() ==> queues[at].name == name,
    ensures
        queue_index(queues, name) == at,
{
    lemma_queue_index(queues, name);
    let found = queue_index(queues, name);
    if found < at {
        assert(queues[found].name != name);
    } else if found > at {
        assert(queues[at].name != name);
    }
}

/// What `working_index` gives is the first index of such a job.
pub proof fn lemma_working_index(working: Seq<WorkingView>, client: PeerAddr, id: u64)
    ensures
        0 <= working_index(working, client, id) <= working.len(),
        forall|i: int|
            0 <= i < working_index(working, client, id) ==> !(working[i].client == client
                && working[i].id == id),
        working_index(working, client, id) < working.len() ==> working[working_index(
            working,
            client,
            id,
        )].client == client && working[working_index(working, client, id)].id == id,
    decreases working.len(),
{
    if working.len() > 0 && !(working[0].client == client && working[0].id == id) {
        let tail = working.skip(1);
        lemma_working_index(tail, client, id);
        assert forall|i: int| 0 <= i < working_index(working, client, id) implies !(
        working[i].client == client && working[i].id == id) by {
            if i > 0 {
                assert(working[i] == tail[i - 1]);
            }
        }
        if working_index(working, client, id) < working.len() {
            assert(working[working_index(working, client, id)] == tail[working_index(
                tail,
                client,
                id,
            )]);
        }
    }
}

/// The first index of such a job is what `working_index` gives.
pub proof fn lemma_working_index_is(
    working: Seq<WorkingView>,
    client: PeerAddr,
    id: u64,
    at: int,
)
    requires
        0 <= at <= working.len(),
        forall|i: int| 0 <= i < at ==> !(working[i].client == client && working[i].id == id),
        at < working.len() ==> working[at].client == client && working[at].id == id,
    ensures
        working_index(working, client, id) == at,
{
    lemma_working_index(working, client, id);
    let found = working_index(working, client, id);
    if found < at {
        assert(!(working[found].client == client && working[found].id == id));
    } else if found > at {
        assert(!(working[at].client == client && working[at].id == id));
    }
}

/// Whether no job of a queue that is named in `names` has a priority
/// above `priority`.
pub open spec fn none_above(queues: Seq<QueueView>, names: Seq<Seq<char>>, priority: u64) -> bool {
    forall|m: int, item: u64|
        #![trigger names[m], queues[queue_index(queues, names[m])].items[item]]
        0 <= m < names.len() && queue_index(queues, names[m]) < queues.len() && queues[queue_index(
            queues,
            names[m],
        )].items.dom().contains(item) ==> queues[queue_index(queues, names[m])].items[item]
            <= priority
}

/// Whether the queues that are named in `names` hold no job.
pub open spec fn all_empty(queues: Seq<QueueView>, names: Seq<Seq<char>>) -> bool {
    forall|m: int, item: u64|
        #![trigger names[m], queues[queue_index(queues, names[m])].items.dom().contains(item)]
        0 <= m < names.len() && queue_index(queues, names[m]) < queues.len() ==> !queues[queue_index(
            queues,
            names[m],
        )].items.dom().contains(item)
}

/// What it means that the worker `client` asked for a job from the queues
/// `names` and got `job`, where the state was `before` and is `after`.
///
/// A job that is handed out is one with the greatest priority of all jobs in
/// the queues named; which one of several such jobs it is, is left open. It
/// leaves its queue, and the worker is busy with it from then on. No job is
/// handed out where the queues named hold none. None is handed out either
/// where the job that was to be handed out exists no longer: that job then
/// leaves its queue.
pub open spec fn got_job(
    before: StateView,
    client: PeerAddr,
    names: Seq<Seq<char>>,
    job: Option<JobView>,
    after: StateView,
) -> bool {
    match job {
        Some(job) => {
            let k = queue_index(before.queues, job.queue_name);
            &&& names.contains(job.queue_name)
            &&& k < before.queues.len()
            &&& is_greatest(before.queues[k].items, job.id)
            &&& before.queues[k].items[job.id] == job.priority
            &&& none_above(before.queues, names, job.priority)
            &&& before.jobs.dom().contains(job.id)
            &&& before.jobs[job.id].value == job.value
            &&& after == (StateView {
                queues: without_job(before.queues, job.queue_name, job.id),
                working: before.working.push(
                    WorkingView {
                        client,
                        id: job.id,
                        priority: job.priority,
                        queue: job.queue_name,
                    },
                ),
                ..before
            })
        },
        None => {
            ||| all_empty(before.queues, names) && after == before
            ||| exists|name: Seq<char>, id: u64|
                {
                    &&& names.contains(name)
                    &&& queue_index(before.queues, name) < before.queues.len()
                    &&& #[trigger] is_greatest(
                        before.queues[queue_index(before.queues, name)].items,
                        id,
                    )
                    &&& !before.jobs.dom().contains(id)
                    &&& after == (StateView {
                        queues: without_job(before.queues, name, id),
                        ..before
                    })
                }
        },
    }
}

/// The index of the first job in the list that the worker `client` is busy
/// with, or the list's length where there is none.
pub open spec fn client_index(working: Seq<WorkingView>, client: PeerAddr) -> int
    decreases working.len(),
{
    if working.len() == 0 || working[0].client == client {
        0
    } else {
        1 + client_index(working.skip(1), client)
    }
}

/// What `client_index` gives is the first index of a job of the worker.
pub proof fn lemma_client_index(working: Seq<WorkingView>, client: PeerAddr)
    ensures
        0 <= client_index(working, client) <= working.len(),
        forall|i: int| 0 <= i < client_index(working, client) ==> working[i].client != client,
        client_index(working, client) < working.len() ==> working[client_index(
            working,
            client,
        )].client == client,
    decreases working.len(),
{
    if working.len() > 0 && working[0].client != client {
        let tail = working.skip(1);
        lemma_client_index(tail, client);
        assert forall|i: int| 0 <= i < client_index(working, client) implies working[i].client
            != client by {
            if i > 0 {
                assert(working[i] == tail[i - 1]);
            }
        }
        if client_index(working, client) < working.len() {
            assert(working[client_index(working, client)] == tail[client_index(tail, client)]);
        }
    }
}

/// The first index of a job of the worker is what `client_index` gives.
pub proof fn lemma_client_index_is(working: Seq<WorkingView>, client: PeerAddr, at: int)
    requires
        0 <= at <= working.len(),
        forall|i: int| 0 <= i < at ==> working[i].client != client,
        at < working.len() ==> working[at].client == client,
    ensures
        client_index(working, client) == at,
{
    lemma_client_index(working, client);
    let found = client_index(working, client);
    if found < at {
        assert(working[found].client != client);
    } else if found > at {
        assert(working[at].client != client);
    }
}

/// The job that a worker was busy with, as it goes back to be worked on.
pub open spec fn job_of(state: StateView, busy: WorkingView) -> JobView {
    JobView {
        id: busy.id,
        value: state.jobs[busy.id].value,
        priority: busy.priority,
        queue_name: busy.queue,
    }
}

/// The state after the worker `client` has given up the job `id`, and the
/// worker that got the job then, if one waited for it. Nothing changes
/// where the job exists no longer, and where the worker is not busy with it.
pub open spec fn after_abort(state: StateView, client: PeerAddr, id: u64) -> (
    StateView,
    Option<u64>,
) {
    let i = working_index(state.working, client, id);
    if state.jobs.dom().contains(id) && i < state.working.len() {
        placed(
            StateView { working: state.working.remove(i), ..state },
            job_of(state, state.working[i]),
        )
    } else {
        (state, None)
    }
}

/// The state after the worker `client` has given up all the jobs that it
/// was busy with, in the order in which it got them, and the workers that
/// got one of these jobs then, each with the job. A job that exists no
/// longer is dropped.
pub open spec fn after_abort_all(state: StateView, client: PeerAddr) -> (
    StateView,
    Seq<(u64, JobView)>,
)
    decreases state.working.len(),
{
    let i = client_index(state.working, client);
    if 0 <= i < state.working.len() {
        let busy = state.working[i];
        let without = StateView { working: state.working.remove(i), ..state };
        if state.jobs.dom().contains(busy.id) {
            let job = job_of(state, busy);
            let (next, waiter) = placed(without, job);
            if next.working.len() < state.working.len() {
                let (last, handed) = after_abort_all(next, client);
                match waiter {
                    Some(w) => (last, seq![(w, job)] + handed),
                    None => (last, handed),
                }
            } else {
                (next, Seq::<(u64, JobView)>::empty())
            }
        } else {
            after_abort_all(without, client)
        }
    } else {
        (state, Seq::<(u64, JobView)>::empty())
    }
}

/// What adding a job gave: the job's identifier, and the worker that got
/// the job at once, if one waited for it.
#[derive(Debug)]
pub struct Added {
    pub id: JobId,
    pub handed: Option<(WaiterId, FullJob)>,
}

/// The job centre.
#[derive(Debug)]
pub struct State {
    last_job_id: u64,
    jobs_by_id: HashMap<JobId, JobRecord>,
    queues: Vec<NamedQueue>,
    working: Vec<WorkingJob>,
    waiting: Vec<Waiter>,
}

/// The queues of a list, each as a mathematical value.
pub closed spec fn queue_views(queues: Seq<NamedQueue>) -> Seq<QueueView> {
    queues.map_values(|queue: NamedQueue| queue@)
}

/// The jobs of a list, each as a mathematical value.
pub closed spec fn working_views(working: Seq<WorkingJob>) -> Seq<WorkingView> {
    working.map_values(|job: WorkingJob| job@)
}

/// The workers of a list, each as a mathematical value.
pub closed spec fn waiter_views(waiting: Seq<Waiter>) -> Seq<WaiterView> {
    waiting.map_values(|waiter: Waiter| waiter@)
}

impl View for State {
    type V = StateView;

    closed spec fn view(&self) -> StateView {
        StateView {
            next_id: self.last_job_id,
            jobs: self.jobs_by_id@.map_values(|record: JobRecord| record@),
            queues: queue_views(self.queues@),
            working: working_views(self.working@),
            waiting: waiter_views(self.waiting@),
        }
    }
}

fn names_contain(names: &Vec<QueueName>, name: &QueueName) -> (found: bool)
    ensures
        found == name_views(names@).contains(name@),
{
    let mut i: usize = 0;
    while i < names.len()
        invariant
            i <= names@.len(),
            forall|j: int| 0 <= j < i ==> name_views(names@)[j] != name@,
        decreases names@.len() - i,
    {
        if names[i] == *name {
            assert(name_views(names@)[i as int] == name@);
            return true;
        }
        i += 1;
    }
    false
}

impl State {
    /// A job centre without jobs, queues and workers. The first job gets
    /// the identifier 0.
    pub fn new() -> (state: Self)
        ensures
            state@.next_id == 0,
            state@.jobs == Map::<u64, RecordView>::empty(),
            state@.queues == Seq::<QueueView>::empty(),
            state@.working == Seq::<WorkingView>::empty(),
            state@.waiting == Seq::<WaiterView>::empty(),
    {
        let state = State {
            last_job_id: 0,
            jobs_by_id: HashMap::new(),
            queues: Vec::new(),
            working: Vec::new(),
            waiting: Vec::new(),
        };
        proof {
            assert(state@.jobs =~= Map::<u64, RecordView>::empty());
            assert(state@.queues =~= Seq::<QueueView>::empty());
            assert(state@.working =~= Seq::<WorkingView>::empty());
            assert(state@.waiting =~= Seq::<WaiterView>::empty());
        }
        state
    }

    fn find_queue(&self, name: &QueueName) -> (k: usize)
        ensures
            k == queue_index(self@.queues, name@),
            k <= self.queues@.len(),
            self.queues@.len() == self@.queues.len(),
    {
        let mut i: usize = 0;
        while i < self.queues.len()
            invariant
                i <= self.queues@.len(),
                forall|j: int| 0 <= j < i ==> self@.queues[j].name != name@,
            decreases self.queues@.len() - i,
        {
            if self.queues[i].name == *name {
                proof {
                    assert(self@.queues[i as int].name == name@);
                    lemma_queue_index_is(self@.queues, name@, i as int);
                }
                return i;
            }
            assert(self@.queues[i as int].name != name@);
            i += 1;
        }
        proof {
            lemma_queue_index_is(self@.queues, name@, i as int);
        }
        i
    }

    fn find_waiter(&self, name: &QueueName) -> (w: usize)
        ensures
            w == first_waiter(self@.waiting, name@),
            w <= self.waiting@.len(),
            self.waiting@.len() == self@.waiting.len(),
    {
        let mut i: usize = 0;
        while i < self.waiting.len()
            invariant
                i <= self.waiting@.len(),
                forall|j: int| 0 <= j < i ==> !self@.waiting[j].queues.contains(name@),
            decreases self.waiting@.len() - i,
        {
            let found = names_contain(&self.waiting[i].queues, name);
            assert(self@.waiting[i as int].queues == name_views(self.waiting@[i as int].queues@));
            if found {
                proof {
                    lemma_first_waiter_is(self@.waiting, name@, i as int);
                }
                return i;
            }
            i += 1;
        }
        proof {
            lemma_first_waiter_is(self@.waiting, name@, i as int);
        }
        i
    }

    /// A job is ready to be worked on: where a worker waits for a job from
    /// its queue, the first such worker gets it and waits no longer; else
    /// the job enters its queue.
    pub fn add_existing_job_to_queue(
        &mut self,
        job_id: JobId,
        queue_name: QueueName,
        job_value: JobValue,
        priority: JobPriority,
    ) -> (handed: Option<(WaiterId, FullJob)>)
        ensures
            ({
                let job = JobView { id: job_id, value: job_value, priority, queue_name: queue_name@ };
                &&& final(self)@ == placed(old(self)@, job).0
                &&& match handed {
                    Some((waiter, given)) => placed(old(self)@, job).1 == Some(waiter) && given@
                        == job,
                    None => placed(old(self)@, job).1 is None,
                }
            }),
    {
        let w = self.find_waiter(&queue_name);
        if w < self.waiting.len() {
            let waiter = self.waiting.swap_remove(w);
            proof {
                assert(self@.waiting =~= swap_removed(old(self)@.waiting, w as int));
                assert(old(self)@.waiting[w as int].id == waiter.id);
            }
            Some((waiter.id, FullJob::new(job_id, job_value, priority, queue_name)))
        } else {
            let k = self.find_queue(&queue_name);
            if k < self.queues.len() {
                let entry = &mut self.queues[k];
                let _ = queue_push(&mut entry.queue, job_id, priority);
                proof {
                    lemma_queue_index(old(self)@.queues, queue_name@);
                    assert(self@.queues =~= with_job(
                        old(self)@.queues,
                        queue_name@,
                        job_id,
                        priority,
                    ));
                }
            } else {
                let mut queue = queue_new();
                let _ = queue_push(&mut queue, job_id, priority);
                self.queues.push(NamedQueue { name: queue_name, queue });
                proof {
                    assert(self@.queues =~= with_job(
                        old(self)@.queues,
                        queue_name@,
                        job_id,
                        priority,
                    ));
                }
            }
            None
        }
    }

    /// Adds a job to the queue `queue_name`. The job gets the next
    /// identifier. Where a worker waits for a job from the queue, the first
    /// such worker gets the job at once. There is no result, and nothing
    /// changes, where the identifiers are used up.
    pub fn add_job(&mut self, queue_name: QueueName, job_value: JobValue, priority: JobPriority) -> (added:
        Option<Added>)
        ensures
            old(self)@.next_id == u64::MAX ==> added is None && final(self)@ == old(self)@,
            old(self)@.next_id < u64::MAX ==> {
                let id = old(self)@.next_id;
                let job = JobView { id, value: job_value, priority, queue_name: queue_name@ };
                let recorded = StateView {
                    next_id: (id + 1) as u64,
                    jobs: old(self)@.jobs.insert(
                        id,
                        RecordView { value: job_value, queue: queue_name@ },
                    ),
                    ..old(self)@
                };
                &&& added matches Some(a) && a.id == id && match a.handed {
                    Some((waiter, given)) => placed(recorded, job).1 == Some(waiter) && given@
                        == job,
                    None => placed(recorded, job).1 is None,
                }
                &&& final(self)@ == placed(recorded, job).0
            },
    {
        if self.last_job_id == 0xffff_ffff_ffff_ffff {
            return None;
        }
        let job_id = self.get_job_id();
        let record = JobRecord { value: clone_value(&job_value), queue: queue_name.clone() };
        self.jobs_by_id.insert(job_id, record);
        proof {
            assert(self@.jobs =~= old(self)@.jobs.insert(
                job_id,
                RecordView { value: job_value, queue: queue_name@ },
            ));
        }
        let handed = self.add_existing_job_to_queue(job_id, queue_name, job_value, priority);
        Some(Added { id: job_id, handed })
    }

    fn get_job_id(&mut self) -> (job_id: u64)
        requires
            old(self).last_job_id < u64::MAX,
        ensures
            job_id == old(self).last_job_id,
            final(self).last_job_id == job_id + 1,
            final(self).jobs_by_id == old(self).jobs_by_id,
            final(self).queues == old(self).queues,
            final(self).working == old(self).working,
            final(self).waiting == old(self).waiting,
    {
        let job_id = self.last_job_id;
        self.last_job_id += 1;
        job_id
    }

    /// Deletes a job: it exists no longer, and it leaves the queue that it
    /// was added to, if it waits in it. The result says whether the job
    /// existed.
    pub fn delete_job(&mut self, job_id: JobId) -> (deleted: bool)
        ensures
            deleted == old(self)@.jobs.dom().contains(job_id),
            !deleted ==> final(self)@ == old(self)@,
            deleted ==> final(self)@ == (StateView {
                jobs: old(self)@.jobs.remove(job_id),
                queues: without_job(
                    old(self)@.queues,
                    old(self)@.jobs[job_id].queue,
                    job_id,
                ),
                ..old(self)@
            }),
    {
        let record = match self.jobs_by_id.remove(&job_id) {
            Some(record) => record,
            None => {
                proof {
                    assert(self@.jobs =~= old(self)@.jobs);
                }
                return false;
            },
        };
        proof {
            assert(self@.jobs =~= old(self)@.jobs.remove(job_id));
            assert(old(self)@.jobs[job_id] == record@);
        }
        let k = self.find_queue(&record.queue);
        if k < self.queues.len() {
            let entry = &mut self.queues[k];
            let _ = queue_remove(&mut entry.queue, job_id);
            proof {
                lemma_queue_index(old(self)@.queues, record.queue@);
                assert(self@.queues =~= without_job(old(self)@.queues, record.queue@, job_id));
            }
        }
        true
    }

    /// The queue to take a job from, for a worker that asks for one from
    /// the queues `names`: the index of a queue that is named and holds a
    /// job of the greatest priority of all, and that priority.
    fn best_queue(&self, names: &Vec<QueueName>) -> (best: Option<(usize, u64)>)
        ensures
            self.queues@.len() == self@.queues.len(),
            match best {
                Some((k, priority)) => {
                    &&& k < self@.queues.len()
                    &&& name_views(names@).contains(self@.queues[k as int].name)
                    &&& k == queue_index(self@.queues, self@.queues[k as int].name)
                    &&& exists|item: u64| #[trigger]
                        is_greatest(self@.queues[k as int].items, item) && self@.queues[k as int].items[item]
                            == priority
                    &&& none_above(self@.queues, name_views(names@), priority)
                },
                None => all_empty(self@.queues, name_views(names@)),
            },
    {
        let ghost queues = self@.queues;
        let ghost wanted = name_views(names@);
        let mut best: Option<(usize, u64)> = None;
        let mut i: usize = 0;
        while i < names.len()
            invariant
                i <= names@.len(),
                queues == self@.queues,
                wanted == name_views(names@),
                self.queues@.len() == queues.len(),
                match best {
                    Some((k, priority)) => k < queues.len(),
                    None => true,
                },
                match best {
                    Some((k, priority)) => wanted.contains(queues[k as int].name),
                    None => true,
                },
                match best {
                    Some((k, priority)) => k == queue_index(queues, queues[k as int].name),
                    None => true,
                },
                match best {
                    Some((k, priority)) => exists|item: u64| #[trigger]
                        is_greatest(queues[k as int].items, item) && queues[k as int].items[item]
                            == priority,
                    None => true,
                },
                match best {
                    Some((k, priority)) => forall|m: int, item: u64|
                        #![trigger wanted[m], queues[queue_index(queues, wanted[m])].items[item]]
                        0 <= m < i && queue_index(queues, wanted[m]) < queues.len()
                            && queues[queue_index(queues, wanted[m])].items.dom().contains(item)
                            ==> queues[queue_index(queues, wanted[m])].items[item] <= priority,
                    None => forall|m: int, item: u64|
                        #![trigger wanted[m], queues[queue_index(queues, wanted[m])].items.dom().contains(item)]
                        0 <= m < i && queue_index(queues, wanted[m]) < queues.len()
                            ==> !queues[queue_index(queues, wanted[m])].items.dom().contains(item),
                },
            decreases names@.len() - i,
        {
            let k = self.find_queue(&names[i]);
            assert(wanted[i as int] == names@[i as int]@);
            if k < self.queues.len() {
                proof {
                    lemma_queue_index(queues, wanted[i as int]);
                    assert(queues[k as int] == self.queues@[k as int]@);
                }
                let ghost earlier = best;
                match queue_peek(&self.queues[k].queue) {
                    Some((top, priority)) => {
                        let replace = match best {
                            Some((_, greatest)) => priority >= greatest,
                            None => true,
                        };
                        if replace {
                            best = Some((k, priority));
                            proof {
                                assert(wanted.contains(queues[k as int].name));
                                assert(is_greatest(queues[k as int].items, top)
                                    && queues[k as int].items[top] == priority);
                                assert forall|m: int, item: u64|
                                    #![trigger wanted[m], queues[queue_index(queues, wanted[m])].items[item]]
                                    0 <= m < i + 1 && queue_index(queues, wanted[m]) < queues.len()
                                        && queues[queue_index(
                                        queues,
                                        wanted[m],
                                    )].items.dom().contains(item) implies queues[queue_index(
                                    queues,
                                    wanted[m],
                                )].items[item] <= priority by {
                                    if m < i {
                                        match earlier {
                                            Some((_, greatest)) => {},
                                            None => {
                                                assert(!queues[queue_index(
                                                    queues,
                                                    wanted[m],
                                                )].items.dom().contains(item));
                                            },
                                        }
                                    }
                                }
                            }
                        } else {
                            proof {
                                let greatest = match earlier {
                                    Some((_, limit)) => limit,
                                    None => 0,
                                };
                                assert forall|m: int, item: u64|
                                    #![trigger wanted[m], queues[queue_index(queues, wanted[m])].items[item]]
                                    0 <= m < i + 1 && queue_index(queues, wanted[m]) < queues.len()
                                        && queues[queue_index(
                                        queues,
                                        wanted[m],
                                    )].items.dom().contains(item) implies queues[queue_index(
                                    queues,
                                    wanted[m],
                                )].items[item] <= greatest by {
                                    if m == i {
                                        assert(queues[k as int].items[item] <= priority);
                                    }
                                }
                            }
                        }
                    },
                    None => {},
                }
            }
            proof {
                match best {
                    Some((k, priority)) => {
                        assert(exists|item: u64| #[trigger]
                            is_greatest(queues[k as int].items, item) && queues[k as int].items[item]
                                == priority);
                    },
                    None => {},
                }
            }
            i += 1;
        }
        best
    }

    fn take_job(&mut self, client: PeerAddr, names: &Vec<QueueName>) -> (job: Option<FullJob>)
        ensures
            got_job(
                old(self)@,
                client,
                name_views(names@),
                match job {
                    Some(j) => Some(j@),
                    None => None,
                },
                final(self)@,
            ),
    {
        let (k, greatest) = match self.best_queue(names) {
            Some(best) => best,
            None => {
                return None;
            },
        };
        let ghost before = self@.queues;
        let ghost name = before[k as int].name;
        let ghost top = choose|item: u64| #[trigger]
            is_greatest(before[k as int].items, item) && before[k as int].items[item] == greatest;
        proof {
            assert(before[k as int] == self.queues@[k as int]@);
        }
        let entry = &mut self.queues[k];
        let popped = queue_pop(&mut entry.queue);
        let max_queue_name = self.queues[k].name.clone();
        let (job_id, job_priority) = match popped {
            Some(pair) => pair,
            None => {
                proof {
                    assert(before[k as int].items.dom().contains(top));
                }
                return None;
            },
        };
        proof {
            assert(before[k as int].items[top] <= before[k as int].items[job_id]);
            assert(before[k as int].items[job_id] <= before[k as int].items[top]);
            assert(self@.queues =~= without_job(before, name, job_id));
        }
        let job_value = match self.jobs_by_id.get(&job_id) {
            Some(record) => clone_value(&record.value),
            None => {
                return None;
            },
        };
        let ghost then = self@.working;
        self.working.push(
            WorkingJob {
                client,
                id: job_id,
                priority: job_priority,
                queue: max_queue_name.clone(),
            },
        );
        proof {
            assert(self@.working =~= then.push(
                WorkingView { client, id: job_id, priority: job_priority, queue: name },
            ));
        }
        Some(FullJob::new(job_id, job_value, job_priority, max_queue_name))
    }

    /// The worker `client` asks for a job from one of the queues
    /// `queue_names`. See `got_job` for what it gets.
    pub fn get_job(&mut self, client: PeerAddr, queue_names: Vec<QueueName>) -> (job: Option<
        FullJob,
    >)
        ensures
            got_job(
                old(self)@,
                client,
                name_views(queue_names@),
                match job {
                    Some(j) => Some(j@),
                    None => None,
                },
                final(self)@,
            ),
    {
        self.take_job(client, &queue_names)
    }

    /// The worker `client` asks for a job from one of the queues
    /// `queue_names`, and waits for one where it gets none: it is then
    /// known as `waiter`, and gets the first job that is ready for one of
    /// these queues.
    pub fn wait_job(&mut self, client: PeerAddr, queue_names: Vec<QueueName>, waiter: WaiterId) -> (response:
        WaitResponse)
        ensures
            match response {
                WaitResponse::Job(job) => got_job(
                    old(self)@,
                    client,
                    name_views(queue_names@),
                    Some(job@),
                    final(self)@,
                ),
                WaitResponse::Wait => {
                    &&& got_job(
                        old(self)@,
                        client,
                        name_views(queue_names@),
                        None,
                        StateView { waiting: old(self)@.waiting, ..final(self)@ },
                    )
                    &&& final(self)@.waiting == old(self)@.waiting.push(
                        WaiterView { queues: name_views(queue_names@), id: waiter },
                    )
                },
            },
    {
        match self.take_job(client, &queue_names) {
            Some(full_job) => WaitResponse::Job(full_job),
            None => {
                let ghost mid = self@;
                self.waiting.push(Waiter { queues: queue_names, id: waiter });
                proof {
                    assert(self@.waiting =~= mid.waiting.push(
                        WaiterView { queues: name_views(queue_names@), id: waiter },
                    ));
                    assert(mid.waiting == old(self)@.waiting);
                    assert((StateView { waiting: old(self)@.waiting, ..self@ }) == mid);
                }
                WaitResponse::Wait
            },
        }
    }

    fn find_working(&self, client: PeerAddr, job_id: JobId) -> (i: usize)
        ensures
            i == working_index(self@.working, client, job_id),
            i <= self.working@.len(),
            self.working@.len() == self@.working.len(),
    {
        let mut i: usize = 0;
        while i < self.working.len()
            invariant
                i <= self.working@.len(),
                forall|j: int|
                    0 <= j < i ==> !(self@.working[j].client == client && self@.working[j].id
                        == job_id),
            decreases self.working@.len() - i,
        {
            assert(self@.working[i as int] == self.working@[i as int]@);
            if self.working[i].client == client && self.working[i].id == job_id {
                proof {
                    lemma_working_index_is(self@.working, client, job_id, i as int);
                }
                return i;
            }
            i += 1;
        }
        proof {
            lemma_working_index_is(self@.working, client, job_id, i as int);
        }
        i
    }

    fn find_client(&self, client: PeerAddr) -> (i: usize)
        ensures
            i == client_index(self@.working, client),
            i <= self.working@.len(),
            self.working@.len() == self@.working.len(),
    {
        let mut i: usize = 0;
        while i < self.working.len()
            invariant
                i <= self.working@.len(),
                forall|j: int| 0 <= j < i ==> self@.working[j].client != client,
            decreases self.working@.len() - i,
        {
            assert(self@.working[i as int] == self.working@[i as int]@);
            if self.working[i].client == client {
                proof {
                    lemma_client_index_is(self@.working, client, i as int);
                }
                return i;
            }
            i += 1;
        }
        proof {
            lemma_client_index_is(self@.working, client, i as int);
        }
        i
    }

    /// The worker `client` gives up the job `job_id`: the job is ready to
    /// be worked on again, with the priority and in the queue that it was
    /// handed out with. Nothing happens where the job exists no longer, and
    /// where the worker is not busy with it.
    pub fn abort_job(&mut self, client: PeerAddr, job_id: JobId) -> (outcome: AbortOutcome)
        ensures
            final(self)@ == after_abort(old(self)@, client, job_id).0,
            outcome.aborted == (old(self)@.jobs.dom().contains(job_id) && working_index(
                old(self)@.working,
                client,
                job_id,
            ) < old(self)@.working.len()),
            match outcome.handed {
                Some((waiter, job)) => after_abort(old(self)@, client, job_id).1 == Some(waiter)
                    && outcome.aborted && job@ == job_of(
                    old(self)@,
                    old(self)@.working[working_index(old(self)@.working, client, job_id)],
                ),
                None => after_abort(old(self)@, client, job_id).1 is None,
            },
    {
        let job_value = match self.jobs_by_id.get(&job_id) {
            Some(record) => clone_value(&record.value),
            None => {
                return AbortOutcome { aborted: false, handed: None };
            },
        };
        let i = self.find_working(client, job_id);
        if i >= self.working.len() {
            return AbortOutcome { aborted: false, handed: None };
        }
        let entry = self.working.remove(i);
        proof {
            assert(self@.working =~= old(self)@.working.remove(i as int));
            assert(old(self)@.working[i as int] == entry@);
            lemma_working_index(old(self)@.working, client, job_id);
        }
        let handed = self.add_existing_job_to_queue(
            job_id,
            entry.queue,
            job_value,
            entry.priority,
        );
        AbortOutcome { aborted: true, handed }
    }

    /// The worker `client` is gone: all the jobs that it was busy with are
    /// ready to be worked on again, in the order in which it got them. The
    /// result lists the workers that got one of these jobs at once, each
    /// with the job.
    pub fn abort_client_jobs(&mut self, client: PeerAddr) -> (handed: Vec<(WaiterId, FullJob)>)
        ensures
            final(self)@ == after_abort_all(old(self)@, client).0,
            handed_views(handed@) == after_abort_all(old(self)@, client).1,
    {
        let mut handed: Vec<(WaiterId, FullJob)> = Vec::new();
        proof {
            assert(handed_views(handed@) + after_abort_all(self@, client).1 =~= after_abort_all(
                self@,
                client,
            ).1);
        }
        loop
            invariant
                after_abort_all(old(self)@, client).0 == after_abort_all(self@, client).0,
                after_abort_all(old(self)@, client).1 == handed_views(handed@) + after_abort_all(
                    self@,
                    client,
                ).1,
            decreases self@.working.len(),
        {
            let ghost state = self@;
            let ghost sent = handed_views(handed@);
            let i = self.find_client(client);
            if i >= self.working.len() {
                proof {
                    assert(sent + Seq::<(u64, JobView)>::empty() =~= sent);
                }
                return handed;
            }
            let entry = self.working.remove(i);
            proof {
                assert(self@.working =~= state.working.remove(i as int));
                assert(state.working[i as int] == entry@);
            }
            let job_id = entry.id;
            let found = match self.jobs_by_id.get(&job_id) {
                Some(record) => Some(clone_value(&record.value)),
                None => None,
            };
            match found {
                Some(job_value) => {
                    let ghost job = job_of(state, entry@);
                    match self.add_existing_job_to_queue(
                        job_id,
                        entry.queue,
                        job_value,
                        entry.priority,
                    ) {
                        Some(given) => {
                            handed.push(given);
                            proof {
                                let rest = after_abort_all(self@, client).1;
                                assert(handed_views(handed@) =~= sent.push((given.0, job)));
                                assert(sent + (seq![(given.0, job)] + rest) =~= sent.push(
                                    (given.0, job),
                                ) + rest);
                            }
                        },
                        None => {},
                    }
                },
                None => {},
            }
        }
    }
}

/// What a request led to.
#[derive(Debug)]
pub struct Processed {
    /// The response to the client; none where the client waits for a job.
    pub response: Option<Response>,
    /// The workers that waited and got a job through this request, each with
    /// the job.
    pub handed: Option<(WaiterId, FullJob)>,
}

impl State {
    /// One request of the worker `client`, who is known as `waiter` where
    /// it has to wait.
    ///
    /// A job that is put gets its identifier, which is the response; a
    /// worker that waited for it gets the job. A job that is asked for is
    /// the response, where there is one; where there is none, the response
    /// says so, or there is no response yet and the worker waits. The
    /// response to deleting and to giving up a job says whether there was
    /// such a job. Putting a job when the identifiers are used up is an
    /// error.
    pub fn process(&mut self, client: PeerAddr, request: Request, waiter: WaiterId) -> (processed:
        Processed)
        ensures
            match request {
                Request::Put { queue, job, pri } => {
                    let id = old(self)@.next_id;
                    let view = JobView { id, value: job, priority: pri, queue_name: queue@ };
                    let recorded = StateView {
                        next_id: (id + 1) as u64,
                        jobs: old(self)@.jobs.insert(id, RecordView { value: job, queue: queue@ }),
                        ..old(self)@
                    };
                    if id < u64::MAX {
                        &&& final(self)@ == placed(recorded, view).0
                        &&& processed.response matches Some(r) && r@ == (ResponseView::OkPut { id })
                        &&& match processed.handed {
                            Some((to, given)) => placed(recorded, view).1 == Some(to) && given@
                                == view,
                            None => placed(recorded, view).1 is None,
                        }
                    } else {
                        &&& final(self)@ == old(self)@
                        &&& processed.response matches Some(r) && r@ is Error
                        &&& processed.handed is None
                    }
                },
                Request::Get { queues, wait } => {
                    &&& processed.handed is None
                    &&& match processed.response {
                        Some(r) => match r@ {
                            ResponseView::OkGet(job) => got_job(
                                old(self)@,
                                client,
                                name_views(queues@),
                                Some(job),
                                final(self)@,
                            ),
                            ResponseView::NoJob => !wait && got_job(
                                old(self)@,
                                client,
                                name_views(queues@),
                                None,
                                final(self)@,
                            ),
                            _ => false,
                        },
                        None => {
                            &&& wait
                            &&& got_job(
                                old(self)@,
                                client,
                                name_views(queues@),
                                None,
                                StateView { waiting: old(self)@.waiting, ..final(self)@ },
                            )
                            &&& final(self)@.waiting == old(self)@.waiting.push(
                                WaiterView { queues: name_views(queues@), id: waiter },
                            )
                        },
                    }
                },
                Request::Delete { id } => {
                    &&& processed.handed is None
                    &&& processed.response matches Some(r) && r@ == if old(
                        self,
                    )@.jobs.dom().contains(id) {
                        ResponseView::OkDelete
                    } else {
                        ResponseView::NoJob
                    }
                    &&& final(self)@ == if old(self)@.jobs.dom().contains(id) {
                        StateView {
                            jobs: old(self)@.jobs.remove(id),
                            queues: without_job(old(self)@.queues, old(self)@.jobs[id].queue, id),
                            ..old(self)@
                        }
                    } else {
                        old(self)@
                    }
                },
                Request::Abort { id } => {
                    &&& final(self)@ == after_abort(old(self)@, client, id).0
                    &&& processed.response matches Some(r) && r@ == if old(
                        self,
                    )@.jobs.dom().contains(id) && working_index(old(self)@.working, client, id)
                        < old(self)@.working.len() {
                        ResponseView::OkAbort
                    } else {
                        ResponseView::NoJob
                    }
                    &&& match processed.handed {
                        Some((to, given)) => after_abort(old(self)@, client, id).1 == Some(to),
                        None => after_abort(old(self)@, client, id).1 is None,
                    }
                },
            },
    {
        match request {
            Request::Put { queue, job, pri } => match self.add_job(queue, job, pri) {
                Some(added) => Processed {
                    response: Some(Response::ok_put(added.id)),
                    handed: added.handed,
                },
                None => Processed { response: Some(Response::error_anon()), handed: None },
            },
            Request::Get { queues, wait } => {
                if !wait {
                    let response = match self.get_job(client, queues) {
                        Some(full_job) => Response::ok_get(full_job),
                        None => Response::no_job(),
                    };
                    Processed { response: Some(response), handed: None }
                } else {
                    match self.wait_job(client, queues, waiter) {
                        WaitResponse::Job(full_job) => Processed {
                            response: Some(Response::ok_get(full_job)),
                            handed: None,
                        },
                        WaitResponse::Wait => Processed { response: None, handed: None },
                    }
                }
            },
            Request::Delete { id } => {
                let response = if self.delete_job(id) {
                    Response::ok_delete()
                } else {
                    Response::no_job()
                };
                Processed { response: Some(response), handed: None }
            },
            Request::Abort { id } => {
                let outcome = self.abort_job(client, id);
                let response = if outcome.aborted {
                    Response::ok_abort()
                } else {
                    Response::no_job()
                };
                Processed { response: Some(response), handed: outcome.handed }
            },
        }
    }
}

/// What a worker that asks for a job and is ready to wait gets.
#[derive(Debug)]
pub enum WaitResponse {
    /// A job.
    Job(FullJob),
    /// No job yet: the worker waits.
    Wait,
}

/// What giving up a job led to.
#[derive(Debug)]
pub struct AbortOutcome {
    /// The worker was busy with the job, and the job is ready to be worked
    /// on again.
    pub aborted: bool,
    /// The worker that got the job at once, if one waited for it.
    pub handed: Option<(WaiterId, FullJob)>,
}

/// The jobs of a list with the workers that got them, each as a
/// mathematical value.
pub open spec fn handed_views(handed: Seq<(WaiterId, FullJob)>) -> Seq<(u64, JobView)> {
    handed.map_values(|given: (WaiterId, FullJob)| (given.0, given.1@))
}

} // verus!
