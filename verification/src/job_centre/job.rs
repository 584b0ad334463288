//! A job as a worker gets it.

use vstd::prelude::*;
use serde_json::Value;

verus! {

/// The identifier of a job. No two jobs have the same.
pub type JobId = u64;

/// What a job is about: any JSON value.
pub type JobValue = Value;

/// The priority of a job: the greater, the more urgent.
pub type JobPriority = u64;

/// The name of a queue.
pub type QueueName = String;

/// A job with everything that a worker is told of it.
#[derive(Debug)]
pub struct FullJob {
    pub id: JobId,
    pub value: JobValue,
    pub priority: JobPriority,
    pub queue_name: QueueName,
}

/// A job as a mathematical value.
pub struct JobView {
    pub id: u64,
    pub value: Value,
    pub priority: u64,
    pub queue_name: Seq<char>,
}

impl View for FullJob {
    type V = JobView;

    open spec fn view(&self) -> JobView {
        JobView {
            id: self.id,
            value: self.value,
            priority: self.priority,
            queue_name: self.queue_name@,
        }
    }
}

impl FullJob {
    pub fn new(id: JobId, value: JobValue, priority: JobPriority, queue_name: QueueName) -> (job:
        Self)
        ensures
            job@ == (JobView { id, value, priority, queue_name: queue_name@ }),
    {
        FullJob { id, value, priority, queue_name }
    }
}

} // verus!
