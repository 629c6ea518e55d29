//! A parsed HTTP request and its mathematical model.

use vstd::prelude::*;
use crate::headers::Headers;

verus! {

/// The model of a request: its fields as sequences.
#[verifier::ext_equal]
pub ghost struct RequestModel {
    pub method: Seq<char>,
    pub uri: Seq<char>,
    pub http_version: Seq<char>,
    pub headers: Seq<(Seq<char>, Seq<char>)>,
    pub body: Option<Seq<u8>>,
}

/// An HTTP request, immutable once parsing has filled it in.
pub struct Request {
    pub method: String,
    pub uri: String,
    pub http_version: String,
    pub headers: Headers,
    pub body: Option<Vec<u8>>,
}

impl View for Request {
    type V = RequestModel;

    open spec fn view(&self) -> RequestModel {
        RequestModel {
            method: self.method@,
            uri: self.uri@,
            http_version: self.http_version@,
            headers: self.headers@,
            body: match self.body {
                Some(b) => Some(b@),
                None => None,
            },
        }
    }
}

/// The model a request starts from before any line has been parsed.
pub open spec fn spec_request_defaults() -> RequestModel {
    RequestModel {
        method: "method"@,
        uri: "/"@,
        http_version: "HTTP/1.1"@,
        headers: Seq::empty(),
        body: None,
    }
}

impl Request {
    /// A request holding only the default field values.
    pub fn new() -> (r: Request)
        ensures
            r@ == spec_request_defaults(),
    {
        let r = Request {
            method: "method".to_owned(),
            uri: "/".to_owned(),
            http_version: "HTTP/1.1".to_owned(),
            headers: Headers::new(),
            body: None,
        };
        proof {
            assert(r@ =~~= spec_request_defaults());
        }
        r
    }
}

} // verus!
