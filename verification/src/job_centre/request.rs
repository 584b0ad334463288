//! What a client of the job centre may ask for.

use vstd::prelude::*;
use super::job::{JobId, JobPriority, JobValue, QueueName};

verus! {

/// A request.
#[derive(Debug)]
pub enum Request {
    /// Add a job to a queue.
    Put { queue: QueueName, job: JobValue, pri: JobPriority },
    /// Hand out the most urgent job of some queues, and wait for one where
    /// there is none, if `wait` says so.
    Get { queues: Vec<QueueName>, wait: bool },
    /// Delete a job.
    Delete { id: JobId },
    /// Give up a job.
    Abort { id: JobId },
}

} // verus!
