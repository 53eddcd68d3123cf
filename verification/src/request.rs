//! Requests as the router sees them: a method, a path and header lines,
//! then the body.

use crate::bytes::{names_match, same_name};
use vstd::prelude::*;

verus! {

/// The request method.
#[derive(Clone, Copy, Debug, PartialEq, Eq, Structural)]
pub enum Method {
    Get,
    Post,
    Put,
    Delete,
    Head,
    Options,
    Connect,
    Patch,
    Trace,
    /// Any method outside the nine above.
    Other,
}

/// One header line.
#[derive(Clone, Debug, PartialEq, Eq)]
pub struct Header {
    pub name: Vec<u8>,
    pub value: Vec<u8>,
}

/// What a [`Header`] holds.
pub struct HeaderView {
    pub name: Seq<u8>,
    pub value: Seq<u8>,
}

impl View for Header {
    type V = HeaderView;

    open spec fn view(&self) -> HeaderView {
        HeaderView { name: self.name@, value: self.value@ }
    }
}

/// The part of a request that routing reads.
#[derive(Clone, Debug, PartialEq, Eq)]
pub struct RequestHead {
    pub method: Method,
    pub path: Vec<u8>,
    pub headers: Vec<Header>,
}

/// What a [`RequestHead`] holds.
pub struct HeadView {
    pub method: Method,
    pub path: Seq<u8>,
    pub headers: Seq<HeaderView>,
}

impl View for RequestHead {
    type V = HeadView;

    open spec fn view(&self) -> HeadView {
        HeadView {
            method: self.method,
            path: self.path@,
            headers: self.headers@.map_values(|h: Header| h@),
        }
    }
}

/// A whole request.
#[derive(Clone, Debug, PartialEq, Eq)]
pub struct Request {
    pub head: RequestHead,
    pub body: Vec<u8>,
}

/// What a [`Request`] holds.
pub struct RequestView {
    pub head: HeadView,
    pub body: Seq<u8>,
}

impl View for Request {
    type V = RequestView;

    open spec fn view(&self) -> RequestView {
        RequestView { head: self.head@, body: self.body@ }
    }
}

/// The value of the first header at or after index `from` whose name is
/// `name` up to ASCII case.
pub open spec fn declared_from(headers: Seq<HeaderView>, name: Seq<u8>, from: int) -> Option<
    Seq<u8>,
>
    decreases headers.len() - from,
    when 0 <= from
{
    if from >= headers.len() {
        None
    } else if same_name(headers[from].name, name) {
        Some(headers[from].value)
    } else {
        declared_from(headers, name, from + 1)
    }
}

/// The value a request declares for the header `name`: that of the first
/// line so named, whatever lines follow it.
pub open spec fn declared(headers: Seq<HeaderView>, name: Seq<u8>) -> Option<Seq<u8>> {
    declared_from(headers, name, 0)
}

impl RequestHead {
    /// Looks up the value declared for the header `name`.
    pub fn header(&self, name: &[u8]) -> (value: Option<&Vec<u8>>)
        ensures
            match value {
                Some(v) => declared(self@.headers, name@) == Some(v@),
                None => declared(self@.headers, name@) is None,
            },
    {
        let mut i: usize = 0;
        while i < self.headers.len()
            invariant
                i <= self.headers.len(),
                declared(self@.headers, name@) == declared_from(self@.headers, name@, i as int),
            decreases self.headers.len() - i,
        {
            if names_match(self.headers[i].name.as_slice(), name) {
                return Some(&self.headers[i].value);
            }
            i += 1;
        }
        None
    }
}

} // verus!
