//! Sending a file with one HTTP `PUT`.

use crate::text::{decimal, decimal_text, texts};
use vstd::prelude::*;
use vstd::string::StringExecFns;

verus! {

/// Why sending a file with `PUT` failed.
#[derive(Debug, PartialEq, Eq)]
pub enum Error {
    /// The file could not be read: what the system said, and the path.
    Io(String, String),
    /// The request could not be made or got no answer; the text says why.
    Request(String),
    /// The server answered with a status that is no success.
    UnexpectedStatusCode { status: u16 },
}

/// Whether a status reports success: it is one of the statuses from 200 to
/// 299.
pub open spec fn is_success(status: u16) -> bool {
    200 <= status < 300
}

/// Holds the status of the answer against what counts as success.
pub fn check_status(status: u16) -> (r: Result<(), Error>)
    ensures
        match r {
            Ok(()) => is_success(status),
            Err(e) => !is_success(status) && e == (Error::UnexpectedStatusCode { status }),
        },
{
    if 200 <= status && status < 300 {
        Ok(())
    } else {
        Err(Error::UnexpectedStatusCode { status })
    }
}

impl Error {
    /// What the failure says of itself.
    pub open spec fn message_text(&self) -> Seq<char> {
        match self {
            Error::Io(_, path) => "error reading file: "@ + path@,
            Error::Request(_) => "HTTP request error"@,
            Error::UnexpectedStatusCode { status } => "unexpected status code: "@ + decimal_text(
                *status as nat,
            ),
        }
    }

    /// What the failure says of itself.
    pub fn message(&self) -> (text: String)
        ensures
            text@ == self.message_text(),
    {
        match self {
            Error::Io(_, path) => {
                let mut text = String::from_str("error reading file: ");
                text.append(path.as_str());
                text
            },
            Error::Request(_) => String::from_str("HTTP request error"),
            Error::UnexpectedStatusCode { status } => {
                let mut text = String::from_str("unexpected status code: ");
                text.append(decimal(*status as u64).as_str());
                text
            },
        }
    }

    /// The failure's message and, after it, that of its cause.
    pub open spec fn chain_texts(&self) -> Seq<Seq<char>> {
        match self {
            Error::Io(cause, _) => seq![self.message_text(), cause@],
            Error::Request(cause) => seq![self.message_text(), cause@],
            Error::UnexpectedStatusCode { .. } => seq![self.message_text()],
        }
    }

    /// The failure's message and, after it, that of its cause.
    pub fn chain(&self) -> (messages: Vec<String>)
        ensures
            texts(messages@) == self.chain_texts(),
    {
        let mut messages: Vec<String> = Vec::new();
        messages.push(self.message());
        match self {
            Error::Io(cause, _) => {
                messages.push(cause.clone());
            },
            Error::Request(cause) => {
                messages.push(cause.clone());
            },
            Error::UnexpectedStatusCode { .. } => {},
        }
        assert(texts(messages@) =~= self.chain_texts());
        messages
    }
}

} // verus!
