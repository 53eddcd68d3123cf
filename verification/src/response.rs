//! Responses, and the parse handler that produces them.

use crate::parser::{parse, parse_csv, Document, ParseError, ParsedDocument};
use crate::state::State;
use vstd::prelude::*;

verus! {

/// What the service answers.
#[derive(Clone, Debug, PartialEq, Eq)]
pub enum Response {
    /// The body parsed; the answer carries the document.
    Parsed(ParsedDocument),
    /// The body is not a document; the answer says why.
    Malformed(ParseError),
    /// No route takes the request.
    NotFound,
}

/// What a [`Response`] holds.
pub enum ResponseView {
    Parsed(Document),
    Malformed(ParseError),
    NotFound,
}

impl View for Response {
    type V = ResponseView;

    open spec fn view(&self) -> ResponseView {
        match self {
            Response::Parsed(doc) => ResponseView::Parsed(doc@),
            Response::Malformed(e) => ResponseView::Malformed(*e),
            Response::NotFound => ResponseView::NotFound,
        }
    }
}

impl ResponseView {
    /// The HTTP status code that goes with the answer.
    pub open spec fn status(self) -> u16 {
        match self {
            ResponseView::Parsed(_) => 200,
            ResponseView::Malformed(_) => 400,
            ResponseView::NotFound => 404,
        }
    }

    /// A status of the 2xx class.
    pub open spec fn is_success(self) -> bool {
        200 <= self.status() < 300
    }

    /// A status of the 4xx class.
    pub open spec fn is_client_error(self) -> bool {
        400 <= self.status() < 500
    }
}

impl Response {
    /// The HTTP status code that goes with the answer.
    pub fn status(&self) -> (code: u16)
        ensures
            code == self@.status(),
    {
        match self {
            Response::Parsed(_) => 200,
            Response::Malformed(_) => 400,
            Response::NotFound => 404,
        }
    }
}

/// The answer to a parse outcome: the document on success, the fault as a
/// client error otherwise.
pub open spec fn reply(outcome: Result<Document, ParseError>) -> ResponseView {
    match outcome {
        Ok(doc) => ResponseView::Parsed(doc),
        Err(e) => ResponseView::Malformed(e),
    }
}

/// Maps the outcome of parsing to a response, whichever parser produced it.
pub fn respond(outcome: Result<ParsedDocument, ParseError>) -> (response: Response)
    ensures
        response@ == match outcome {
            Ok(doc) => reply(Ok(doc@)),
            Err(e) => reply(Err(e)),
        },
{
    match outcome {
        Ok(doc) => Response::Parsed(doc),
        Err(e) => Response::Malformed(e),
    }
}

/// The parse handler: parses the body and answers with the outcome. The
/// shared state is read-only here and has no part in the answer.
pub fn handle(body: &[u8], state: &State) -> (response: Response)
    ensures
        response@ == reply(parse(body@)),
{
    respond(parse_csv(body))
}

} // verus!
