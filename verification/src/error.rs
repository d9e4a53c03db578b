//! The errors of the service and the responses that report them.

use vstd::prelude::*;
use vstd::string::StringExecFns;

verus! {

/// What can go wrong while a request is served. The errors of the database,
/// of input and output and of outgoing requests are held by their message.
#[derive(Debug, Clone)]
pub enum Error {
    CtxFail,
    UntisError,
    Surreal(String),
    IO(String),
    Reqwest(String),
}

/// A response in plain values: the status code and the body.
#[derive(Debug, Clone)]
pub struct Response {
    pub status: u16,
    pub body: String,
}

/// The status that answers an error with the status code `code`: the code
/// itself for 404, 403 and 409, and 500 for every other.
pub open spec fn answered_status(code: u16) -> u16 {
    if code == 404 || code == 403 || code == 409 {
        code
    } else {
        500
    }
}

/// The first line of the body for the status code `code`.
pub open spec fn heading(code: u16) -> Seq<char> {
    if code == 404 {
        "404 Not Found\n"@
    } else if code == 403 {
        "403 Forbidden\n"@
    } else if code == 409 {
        "409 Conflict\n"@
    } else {
        "500 Internal Server Error\n"@
    }
}

/// The response to an error with the status code `code` and the message
/// `message`: the heading of the answered status, then the message.
pub fn response_for(code: u16, message: &str) -> (response: Response)
    ensures
        response.status == answered_status(code),
        response.body@ == heading(code) + message@,
{
    if code == 404 {
        Response { status: 404, body: String::from_str("404 Not Found\n").concat(message) }
    } else if code == 403 {
        Response { status: 403, body: String::from_str("403 Forbidden\n").concat(message) }
    } else if code == 409 {
        Response { status: 409, body: String::from_str("409 Conflict\n").concat(message) }
    } else {
        Response {
            status: 500,
            body: String::from_str("500 Internal Server Error\n").concat(message),
        }
    }
}

impl Error {
    /// What the error says of itself.
    pub open spec fn spec_message(&self) -> Seq<char> {
        match self {
            Error::CtxFail => "Fail to get Ctx"@,
            Error::UntisError => "Fetching from Untis failed"@,
            Error::Surreal(m) => m@,
            Error::IO(m) => m@,
            Error::Reqwest(m) => m@,
        }
    }

    /// What the error says of itself.
    pub fn message(&self) -> (text: String)
        ensures
            text@ == self.spec_message(),
    {
        match self {
            Error::CtxFail => String::from_str("Fail to get Ctx"),
            Error::UntisError => String::from_str("Fetching from Untis failed"),
            Error::Surreal(m) => m.clone(),
            Error::IO(m) => m.clone(),
            Error::Reqwest(m) => m.clone(),
        }
    }

    /// The status code of the error, which is 500 for every error.
    pub fn status_code(&self) -> (code: u16)
        ensures
            code == 500,
    {
        500
    }

    /// The response that reports the error.
    pub fn error_response(&self) -> (response: Response)
        ensures
            response.status == 500,
            response.body@ == "500 Internal Server Error\n"@ + self.spec_message(),
    {
        let text = self.message();
        response_for(self.status_code(), text.as_str())
    }
}

} // verus!
