//! A job centre: queues of jobs with priorities, from which workers take
//! the most urgent job.

pub mod job;
pub mod queue;
pub mod request;
pub mod response;
pub mod state;
