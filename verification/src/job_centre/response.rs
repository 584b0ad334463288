//! What the job centre answers.

use vstd::prelude::*;
use super::job::{FullJob, JobId, JobView};

verus! {

/// A response.
#[derive(Debug)]
pub enum Response {
    Done(OkResponse),
    NoJob,
    Error { error: Option<String> },
}

/// What a response holds where the request was carried out.
#[derive(Debug)]
pub enum OkResponse {
    Put { id: JobId },
    Get(FullJob),
    Delete,
    Abort,
}

/// A response as a mathematical value.
pub enum ResponseView {
    OkPut { id: u64 },
    OkGet(JobView),
    OkDelete,
    OkAbort,
    NoJob,
    Error { error: Option<Seq<char>> },
}

impl View for Response {
    type V = ResponseView;

    open spec fn view(&self) -> ResponseView {
        match *self {
            Response::Done(OkResponse::Put { id }) => ResponseView::OkPut { id },
            Response::Done(OkResponse::Get(job)) => ResponseView::OkGet(job@),
            Response::Done(OkResponse::Delete) => ResponseView::OkDelete,
            Response::Done(OkResponse::Abort) => ResponseView::OkAbort,
            Response::NoJob => ResponseView::NoJob,
            Response::Error { error } => ResponseView::Error {
                error: match error {
                    Some(text) => Some(text@),
                    None => None,
                },
            },
        }
    }
}

impl Response {
    pub fn ok_get(full_job: FullJob) -> (response: Self)
        ensures
            response@ == ResponseView::OkGet(full_job@),
    {
        Response::Done(OkResponse::Get(full_job))
    }

    pub fn ok_put(id: JobId) -> (response: Self)
        ensures
            response@ == (ResponseView::OkPut { id }),
    {
        Response::Done(OkResponse::Put { id })
    }

    pub fn ok_delete() -> (response: Self)
        ensures
            response@ == ResponseView::OkDelete,
    {
        Response::Done(OkResponse::Delete)
    }

    pub fn ok_abort() -> (response: Self)
        ensures
            response@ == ResponseView::OkAbort,
    {
        Response::Done(OkResponse::Abort)
    }

    pub fn no_job() -> (response: Self)
        ensures
            response@ == ResponseView::NoJob,
    {
        Response::NoJob
    }

    pub fn error(error: String) -> (response: Self)
        ensures
            response@ == (ResponseView::Error { error: Some(error@) }),
    {
        Response::Error { error: Some(error) }
    }

    pub fn error_anon() -> (response: Self)
        ensures
            response@ == (ResponseView::Error { error: None }),
    {
        Response::Error { error: None }
    }
}

} // verus!
