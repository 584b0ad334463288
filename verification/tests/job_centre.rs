use protohackers::job_centre::job::FullJob;
use protohackers::job_centre::request::Request;
use protohackers::job_centre::response::{OkResponse, Response};
use protohackers::job_centre::state::{State, WaitResponse};
use protohackers::peer::PeerAddr;
use serde_json::Value;

fn worker(port: u16) -> PeerAddr {
    PeerAddr { v6: false, ip: 0x0a00_0002, port, flowinfo: 0, scope_id: 0 }
}

fn q(name: &str) -> String {
    name.to_owned()
}

fn text(value: &str) -> Value {
    Value::String(value.to_owned())
}

fn same(job: &FullJob, id: u64, value: &str, priority: u64, queue: &str) -> bool {
    job.id == id && job.value == text(value) && job.priority == priority && job.queue_name == queue
}

#[test]
fn jobs_get_identifiers_in_turn() {
    let mut state = State::new();
    let first = state.add_job(q("a"), text("one"), 1).unwrap();
    let second = state.add_job(q("b"), text("two"), 1).unwrap();
    let third = state.add_job(q("a"), text("three"), 1).unwrap();
    assert_eq!((first.id, second.id, third.id), (0, 1, 2));
    assert!(first.handed.is_none() && second.handed.is_none() && third.handed.is_none());
}

#[test]
fn most_urgent_job_first() {
    let mut state = State::new();
    state.add_job(q("a"), text("low"), 10).unwrap();
    state.add_job(q("a"), text("high"), 30).unwrap();
    state.add_job(q("a"), text("mid"), 20).unwrap();
    let job = state.get_job(worker(1), vec![q("a")]).unwrap();
    assert!(same(&job, 1, "high", 30, "a"));
    let job = state.get_job(worker(1), vec![q("a")]).unwrap();
    assert!(same(&job, 2, "mid", 20, "a"));
    let job = state.get_job(worker(2), vec![q("a")]).unwrap();
    assert!(same(&job, 0, "low", 10, "a"));
    assert!(state.get_job(worker(2), vec![q("a")]).is_none());
}

#[test]
fn most_urgent_job_of_several_queues() {
    let mut state = State::new();
    state.add_job(q("a"), text("a5"), 5).unwrap();
    state.add_job(q("b"), text("b9"), 9).unwrap();
    state.add_job(q("c"), text("c7"), 7).unwrap();
    state.add_job(q("d"), text("d99"), 99).unwrap();
    let names = vec![q("a"), q("nothing"), q("b"), q("c")];
    let job = state.get_job(worker(1), names.clone()).unwrap();
    assert!(same(&job, 1, "b9", 9, "b"));
    let job = state.get_job(worker(1), names.clone()).unwrap();
    assert!(same(&job, 2, "c7", 7, "c"));
    let job = state.get_job(worker(1), names.clone()).unwrap();
    assert!(same(&job, 0, "a5", 5, "a"));
    assert!(state.get_job(worker(1), names).is_none());
    assert!(state.get_job(worker(1), vec![]).is_none());
    let job = state.get_job(worker(1), vec![q("d")]).unwrap();
    assert!(same(&job, 3, "d99", 99, "d"));
}

#[test]
fn deleted_job_is_gone() {
    let mut state = State::new();
    state.add_job(q("a"), text("one"), 1).unwrap();
    state.add_job(q("a"), text("two"), 2).unwrap();
    assert!(state.delete_job(1));
    assert!(!state.delete_job(1));
    assert!(!state.delete_job(17));
    let job = state.get_job(worker(1), vec![q("a")]).unwrap();
    assert!(same(&job, 0, "one", 1, "a"));
    assert!(state.get_job(worker(1), vec![q("a")]).is_none());
}

#[test]
fn aborted_job_can_be_had_again() {
    let mut state = State::new();
    state.add_job(q("a"), text("one"), 5).unwrap();
    let job = state.get_job(worker(1), vec![q("a")]).unwrap();
    assert_eq!(job.id, 0);
    assert!(state.get_job(worker(2), vec![q("a")]).is_none());
    // Only the worker that is busy with a job can give it up.
    assert!(!state.abort_job(worker(2), 0).aborted);
    assert!(!state.abort_job(worker(1), 1).aborted);
    let outcome = state.abort_job(worker(1), 0);
    assert!(outcome.aborted && outcome.handed.is_none());
    assert!(!state.abort_job(worker(1), 0).aborted);
    let job = state.get_job(worker(2), vec![q("a")]).unwrap();
    assert!(same(&job, 0, "one", 5, "a"));
}

#[test]
fn job_deleted_while_worked_on_cannot_be_aborted() {
    let mut state = State::new();
    state.add_job(q("a"), text("one"), 5).unwrap();
    state.get_job(worker(1), vec![q("a")]).unwrap();
    assert!(state.delete_job(0));
    assert!(!state.abort_job(worker(1), 0).aborted);
    assert!(state.abort_client_jobs(worker(1)).is_empty());
    assert!(state.get_job(worker(2), vec![q("a")]).is_none());
}

#[test]
fn jobs_of_a_worker_that_is_gone_are_ready_again() {
    let mut state = State::new();
    state.add_job(q("a"), text("one"), 1).unwrap();
    state.add_job(q("b"), text("two"), 2).unwrap();
    state.add_job(q("a"), text("three"), 3).unwrap();
    state.get_job(worker(1), vec![q("a")]).unwrap();
    state.get_job(worker(2), vec![q("b")]).unwrap();
    state.get_job(worker(1), vec![q("a")]).unwrap();
    assert!(state.get_job(worker(3), vec![q("a"), q("b")]).is_none());
    assert!(state.abort_client_jobs(worker(1)).is_empty());
    let job = state.get_job(worker(3), vec![q("a"), q("b")]).unwrap();
    assert!(same(&job, 2, "three", 3, "a"));
    let job = state.get_job(worker(3), vec![q("a"), q("b")]).unwrap();
    assert!(same(&job, 0, "one", 1, "a"));
    assert!(state.get_job(worker(3), vec![q("a"), q("b")]).is_none());
    assert!(state.abort_client_jobs(worker(1)).is_empty());
}

#[test]
fn waiting_worker_gets_the_next_job() {
    let mut state = State::new();
    assert!(matches!(state.wait_job(worker(1), vec![q("a"), q("b")], 71), WaitResponse::Wait));
    assert!(matches!(state.wait_job(worker(2), vec![q("b")], 72), WaitResponse::Wait));
    let added = state.add_job(q("c"), text("for nobody"), 1).unwrap();
    assert!(added.handed.is_none());
    let added = state.add_job(q("b"), text("for the first"), 1).unwrap();
    let (waiter, job) = added.handed.unwrap();
    assert_eq!(waiter, 71);
    assert!(same(&job, 1, "for the first", 1, "b"));
    let added = state.add_job(q("b"), text("for the second"), 1).unwrap();
    let (waiter, job) = added.handed.unwrap();
    assert_eq!(waiter, 72);
    assert!(same(&job, 2, "for the second", 1, "b"));
    let added = state.add_job(q("b"), text("for the queue"), 1).unwrap();
    assert!(added.handed.is_none());
    match state.wait_job(worker(3), vec![q("b")], 73) {
        WaitResponse::Job(job) => assert!(same(&job, 3, "for the queue", 1, "b")),
        WaitResponse::Wait => panic!("a job was there"),
    }
}

#[test]
fn aborted_job_goes_to_a_waiting_worker() {
    let mut state = State::new();
    state.add_job(q("a"), text("one"), 4).unwrap();
    state.get_job(worker(1), vec![q("a")]).unwrap();
    assert!(matches!(state.wait_job(worker(2), vec![q("a")], 5), WaitResponse::Wait));
    let outcome = state.abort_job(worker(1), 0);
    assert!(outcome.aborted);
    let (waiter, job) = outcome.handed.unwrap();
    assert_eq!(waiter, 5);
    assert!(same(&job, 0, "one", 4, "a"));
    assert!(state.get_job(worker(3), vec![q("a")]).is_none());

    let mut state = State::new();
    state.add_job(q("a"), text("one"), 4).unwrap();
    state.add_job(q("a"), text("two"), 3).unwrap();
    state.get_job(worker(1), vec![q("a")]).unwrap();
    state.get_job(worker(1), vec![q("a")]).unwrap();
    assert!(matches!(state.wait_job(worker(2), vec![q("a")], 8), WaitResponse::Wait));
    let handed = state.abort_client_jobs(worker(1));
    assert_eq!(handed.len(), 1);
    assert_eq!(handed[0].0, 8);
    assert!(same(&handed[0].1, 0, "one", 4, "a"));
    let job = state.get_job(worker(3), vec![q("a")]).unwrap();
    assert!(same(&job, 1, "two", 3, "a"));
}

#[test]
fn full_job_holds_what_it_is_given() {
    let job = FullJob::new(7, Value::Bool(true), 9, q("queue"));
    assert_eq!(job.id, 7);
    assert_eq!(job.value, Value::Bool(true));
    assert_eq!(job.priority, 9);
    assert_eq!(job.queue_name, "queue");
}

#[test]
fn requests_and_their_responses() {
    let mut state = State::new();
    let put = state.process(
        worker(1),
        Request::Put { queue: q("a"), job: text("one"), pri: 3 },
        0,
    );
    assert!(matches!(put.response, Some(Response::Done(OkResponse::Put { id: 0 }))));
    assert!(put.handed.is_none());
    let none = state.process(worker(1), Request::Get { queues: vec![q("b")], wait: false }, 0);
    assert!(matches!(none.response, Some(Response::NoJob)));
    let got = state.process(worker(1), Request::Get { queues: vec![q("a")], wait: false }, 0);
    match got.response {
        Some(Response::Done(OkResponse::Get(job))) => assert!(same(&job, 0, "one", 3, "a")),
        other => panic!("no job: {:?}", other),
    }
    let abort = state.process(worker(2), Request::Abort { id: 0 }, 0);
    assert!(matches!(abort.response, Some(Response::NoJob)));
    let waits = state.process(worker(2), Request::Get { queues: vec![q("a")], wait: true }, 44);
    assert!(waits.response.is_none() && waits.handed.is_none());
    let abort = state.process(worker(1), Request::Abort { id: 0 }, 0);
    assert!(matches!(abort.response, Some(Response::Done(OkResponse::Abort))));
    let (waiter, job) = abort.handed.unwrap();
    assert_eq!(waiter, 44);
    assert!(same(&job, 0, "one", 3, "a"));
    let delete = state.process(worker(3), Request::Delete { id: 0 }, 0);
    assert!(matches!(delete.response, Some(Response::Done(OkResponse::Delete))));
    let delete = state.process(worker(3), Request::Delete { id: 0 }, 0);
    assert!(matches!(delete.response, Some(Response::NoJob)));
    let put = state.process(
        worker(1),
        Request::Put { queue: q("a"), job: text("two"), pri: 1 },
        0,
    );
    assert!(matches!(put.response, Some(Response::Done(OkResponse::Put { id: 1 }))));
    let got = state.process(worker(1), Request::Get { queues: vec![q("a")], wait: true }, 45);
    assert!(matches!(got.response, Some(Response::Done(OkResponse::Get(_)))));
}

#[test]
fn response_constructors() {
    assert!(matches!(Response::ok_put(4), Response::Done(OkResponse::Put { id: 4 })));
    assert!(matches!(Response::ok_delete(), Response::Done(OkResponse::Delete)));
    assert!(matches!(Response::ok_abort(), Response::Done(OkResponse::Abort)));
    assert!(matches!(Response::no_job(), Response::NoJob));
    assert!(matches!(Response::error_anon(), Response::Error { error: None }));
    match Response::error(q("Invalid request")) {
        Response::Error { error: Some(text) } => assert_eq!(text, "Invalid request"),
        other => panic!("no error: {:?}", other),
    }
    match Response::ok_get(FullJob::new(1, text("v"), 2, q("n"))) {
        Response::Done(OkResponse::Get(job)) => assert!(same(&job, 1, "v", 2, "n")),
        other => panic!("no job: {:?}", other),
    }
}
