//! A to-be-sent HTTP response and its mathematical model.

use vstd::prelude::*;
use crate::headers::Headers;

verus! {

/// The model of a response: its fields as sequences.
#[verifier::ext_equal]
pub ghost struct ResponseModel {
    pub status: int,
    pub status_text: Seq<char>,
    pub http_version: Seq<char>,
    pub headers: Seq<(Seq<char>, Seq<char>)>,
    pub body: Option<Seq<u8>>,
}

/// An HTTP response, built by a route handler and then serialized once.
pub struct Response {
    pub status: u16,
    pub status_text: String,
    pub http_version: String,
    pub headers: Headers,
    pub body: Option<Vec<u8>>,
}

impl View for Response {
    type V = ResponseModel;

    open spec fn view(&self) -> ResponseModel {
        ResponseModel {
            status: self.status as int,
            status_text: self.status_text@,
            http_version: self.http_version@,
            headers: self.headers@,
            body: match self.body {
                Some(b) => Some(b@),
                None => None,
            },
        }
    }
}

/// The model a response starts from before a handler has touched it.
pub open spec fn spec_response_defaults() -> ResponseModel {
    ResponseModel {
        status: 400,
        status_text: "Bad Request"@,
        http_version: "HTTP/1.1"@,
        headers: Seq::empty(),
        body: None,
    }
}

impl Response {
    /// A response holding only the default field values.
    pub fn new() -> (r: Response)
        ensures
            r@ == spec_response_defaults(),
    {
        let r = Response {
            status: 400,
            status_text: "Bad Request".to_owned(),
            http_version: "HTTP/1.1".to_owned(),
            headers: Headers::new(),
            body: None,
        };
        proof {
            assert(r@ =~~= spec_response_defaults());
        }
        r
    }
}

} // verus!
