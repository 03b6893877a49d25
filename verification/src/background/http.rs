//! Error answers.

use vstd::prelude::*;

verus! {

/// Status of a request that cannot be served.
pub const BAD_REQUEST: u16 = 400;

/// Status of a request for something that does not exist.
pub const NOT_FOUND: u16 = 404;

/// Status of a request that conflicts with the state of what it names.
pub const CONFLICT: u16 = 409;

/// Status of a request that comes when there is no room for it.
pub const TOO_MANY_REQUESTS: u16 = 429;

/// Status of a request that failed through no fault of its own.
pub const INTERNAL_SERVER_ERROR: u16 = 500;

/// An error answer: its status, a stable code, and a message for people.
#[derive(Debug)]
pub struct HttpError {
    pub status: u16,
    pub code: &'static str,
    pub message: String,
}

/// What an error answer says.
#[verifier::ext_equal]
pub struct HttpErrorView {
    pub status: u16,
    pub code: Seq<char>,
    pub message: Seq<char>,
}

impl View for HttpError {
    type V = HttpErrorView;

    open spec fn view(&self) -> HttpErrorView {
        HttpErrorView { status: self.status, code: self.code@, message: self.message@ }
    }
}

pub open spec fn fault(status: u16, code: Seq<char>, message: Seq<char>) -> HttpErrorView {
    HttpErrorView { status, code, message }
}

/// An error answer.
pub fn create_error(status: u16, code: &'static str, message: String) -> (error: HttpError)
    ensures
        error@ == fault(status, code@, message@),
{
    HttpError { status, code, message }
}

} // verus!
