//! The route table and the per-request control flow: dispatch a parsed
//! request to the first registered route whose method and path match it
//! exactly, invoke that route's handler, and serialize the reply — or
//! produce the fixed not-found reply when no route matches.
//!
//! The table is meant to be filled before serving begins and read only
//! afterwards; accepting connections and all socket I/O live outside the
//! library.

use vstd::prelude::*;
use crate::request::Request;
use crate::request::RequestModel;
use crate::response::Response;
use crate::response::ResponseModel;
use crate::serialize::serialize_response;
use crate::serialize::not_found_bytes;
use crate::serialize::spec_not_found_bytes;
use crate::serialize::spec_serialize_response;
use crate::strutil::str_eq;

verus! {

/// What a route handler is: a function from a request to a response,
/// invoked at most once per connection. Its behavior is the application's
/// own; the core assumes nothing about it.
pub trait Handler {
    /// Produces the response for `request`.
    fn handle(&self, request: &Request) -> Response;
}

/// One registered route: the method and path it answers for, and its
/// handler.
pub struct RouteHandler<H> {
    pub method: String,
    pub path: String,
    pub handler: H,
}

/// The server core: an ordered route table with exact-match dispatch.
pub struct HttpServer<H> {
    routes: Vec<RouteHandler<H>>,
}

impl<H> View for HttpServer<H> {
    type V = Seq<(Seq<char>, Seq<char>)>;

    closed spec fn view(&self) -> Seq<(Seq<char>, Seq<char>)> {
        Seq::new(self.routes@.len(), |i: int| (self.routes@[i].method@, self.routes@[i].path@))
    }
}

/// Whether the route entry `e` — its method, then its path — matches `r`:
/// exact, case-sensitive string equality on both.
pub open spec fn route_matches(e: (Seq<char>, Seq<char>), r: RequestModel) -> bool {
    e.0 == r.method && e.1 == r.uri
}

/// Dispatch is order-stable: whatever first match `k` dispatch arrives at,
/// it cannot lie beyond any matching route `i` registered earlier, so of
/// two routes registered for the same method and path the earlier one
/// always wins.
pub proof fn lemma_dispatch_order_stable(
    routes: Seq<(Seq<char>, Seq<char>)>,
    r: RequestModel,
    i: int,
    k: int,
)
    requires
        0 <= i < routes.len(),
        route_matches(routes[i], r),
        0 <= k < routes.len(),
        route_matches(routes[k], r),
        forall|j: int| 0 <= j < k ==> !route_matches(routes[j], r),
    ensures
        k <= i,
{
    if k > i {
        assert(!route_matches(routes[i], r));
    }
}

impl<H: Handler> HttpServer<H> {
    /// A server with an empty route table.
    pub fn new() -> (s: Self)
        ensures
            s@ == Seq::<(Seq<char>, Seq<char>)>::empty(),
    {
        let s = HttpServer { routes: Vec::new() };
        proof {
            assert(s@ =~= Seq::<(Seq<char>, Seq<char>)>::empty());
        }
        s
    }

    /// Appends a route answering GET requests for `path`.
    pub fn get(&mut self, path: &str, handler: H)
        ensures
            final(self)@ == old(self)@.push(("GET"@, path@)),
    {
        self.routes.push(
            RouteHandler { path: path.to_owned(), method: "GET".to_owned(), handler },
        );
        proof {
            assert(final(self)@ =~= old(self)@.push(("GET"@, path@)));
        }
    }

    /// Appends a route answering POST requests for `path`.
    pub fn post(&mut self, path: &str, handler: H)
        ensures
            final(self)@ == old(self)@.push(("POST"@, path@)),
    {
        self.routes.push(
            RouteHandler { path: path.to_owned(), method: "POST".to_owned(), handler },
        );
        proof {
            assert(final(self)@ =~= old(self)@.push(("POST"@, path@)));
        }
    }

    /// Scans the routes in registration order and yields the index of the
    /// first whose method and path equal the request's, or `None` when no
    /// route matches.
    #[verifier::loop_isolation(false)]
    pub fn dispatch(&self, request: &Request) -> (r: Option<usize>)
        ensures
            match r {
                Some(i) => i < self@.len() && route_matches(self@[i as int], request@) && (forall|
                    j: int,
                |
                    0 <= j < i ==> !route_matches(self@[j], request@)),
                None => forall|j: int| 0 <= j < self@.len() ==> !route_matches(self@[j], request@),
            },
    {
        let n = self.routes.len();
        let mut i: usize = 0;
        while i < n
            invariant
                i <= n,
                n == self@.len(),
                forall|j: int| 0 <= j < i ==> !route_matches(self@[j], request@),
            decreases n - i,
        {
            let route = &self.routes[i];
            if str_eq(request.uri.as_str(), route.path.as_str()) && str_eq(
                request.method.as_str(),
                route.method.as_str(),
            ) {
                return Some(i);
            }
            i = i + 1;
        }
        None
    }

    /// Serves one parsed request: finds the first matching route, invokes
    /// its handler and serializes the reply; a request no route matches
    /// gets the fixed not-found bytes. Yields the bytes to write back on
    /// the connection.
    pub fn handle_request(&self, request: &Request) -> (out: Vec<u8>)
        ensures
            (forall|j: int| 0 <= j < self@.len() ==> !route_matches(self@[j], request@)) ==> out@
                == spec_not_found_bytes(),
            (exists|j: int| 0 <= j < self@.len() && route_matches(self@[j], request@)) ==> (exists|
                resp: ResponseModel,
            |
                out@ == spec_serialize_response(resp)),
    {
        match self.dispatch(request) {
            Some(i) => {
                let response = self.routes[i].handler.handle(request);
                let out = serialize_response(&response);
                proof {
                    let resp = response@;
                    assert(out@ == spec_serialize_response(resp));
                }
                out
            },
            None => not_found_bytes(),
        }
    }
}

} // verus!
