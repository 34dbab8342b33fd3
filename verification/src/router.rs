//! The dispatch table: which handler answers a request.
use crate::httprequest::{parsed, HttpRequest, Method, Resource};
use crate::httpresponse::{HttpResponse, ResponseView, Status};
use crate::text::to_chars;
use vstd::prelude::*;

verus! {

/// The paths that a route answers.
#[derive(Debug)]
pub enum Pattern {
    /// The path that equals the given one.
    Exact(String),
    /// Every path that begins with the given one.
    Prefix(String),
}

impl Pattern {
    /// The pattern covers `path`.
    pub open spec fn covers(self, path: Seq<char>) -> bool {
        match self {
            Pattern::Exact(p) => p@ == path,
            Pattern::Prefix(p) => p@.is_prefix_of(path),
        }
    }

    /// Tells whether the pattern covers the path whose characters are `path`.
    pub fn is_match(&self, path: &[char]) -> (b: bool)
        ensures
            b == self.covers(path@),
    {
        let (text, exact) = match self {
            Pattern::Exact(p) => (to_chars(p.as_str()), true),
            Pattern::Prefix(p) => (to_chars(p.as_str()), false),
        };
        let n = text.len();
        if n > path.len() || (exact && n != path.len()) {
            return false;
        }
        let mut i: usize = 0;
        while i < n
            invariant
                i <= n,
                n == text@.len(),
                n <= path@.len(),
                match *self {
                    Pattern::Exact(p) => p@ == text@,
                    Pattern::Prefix(p) => p@ == text@,
                },
                forall|k: int| 0 <= k < i ==> text@[k] == path@[k],
            decreases n - i,
        {
            if text[i] != path[i] {
                assert(path@.subrange(0, n as int)[i as int] == path@[i as int]);
                return false;
            }
            i += 1;
        }
        assert(text@ =~= path@.subrange(0, n as int));
        if exact {
            assert(path@.subrange(0, n as int) =~= path@);
        }
        true
    }
}

/// One row of the dispatch table.
pub struct Route<H> {
    pub method: Method,
    pub pattern: Pattern,
    pub handler: H,
}

impl<H> Route<H> {
    /// The route answers requests with this method and this path.
    pub open spec fn answers(self, method: Method, path: Seq<char>) -> bool {
        self.method == method && self.pattern.covers(path)
    }
}

/// The position of the first route that answers, if one does.
pub open spec fn first_route<H>(routes: Seq<Route<H>>, method: Method, path: Seq<char>) -> Option<
    int,
>
    decreases routes.len(),
{
    if routes.len() == 0 {
        None
    } else {
        match first_route(routes.drop_last(), method, path) {
            Some(i) => Some(i),
            None => if routes.last().answers(method, path) {
                Some(routes.len() - 1)
            } else {
                None
            },
        }
    }
}

/// `first_route` is a route that answers, the first of them, and `None`
/// only where no route answers.
pub proof fn lemma_first_route<H>(routes: Seq<Route<H>>, method: Method, path: Seq<char>)
    ensures
        match first_route(routes, method, path) {
            Some(i) => {
                &&& 0 <= i < routes.len()
                &&& routes[i].answers(method, path)
                &&& forall|j: int| 0 <= j < i ==> !(#[trigger] routes[j]).answers(method, path)
            },
            None => forall|j: int|
                0 <= j < routes.len() ==> !(#[trigger] routes[j]).answers(method, path),
        },
    decreases routes.len(),
{
    if routes.len() > 0 {
        let front = routes.drop_last();
        lemma_first_route(front, method, path);
        assert forall|j: int| 0 <= j < front.len() implies front[j] == routes[j] by {}
        match first_route(front, method, path) {
            Some(i) => {
                assert(routes[i] == front[i]);
                assert forall|j: int| 0 <= j < i implies !(#[trigger] routes[j]).answers(
                    method,
                    path,
                ) by {
                    assert(routes[j] == front[j]);
                }
            },
            None => {
                assert forall|j: int| 0 <= j < front.len() implies !(#[trigger] routes[j]).answers(
                    method,
                    path,
                ) by {
                    assert(routes[j] == front[j]);
                }
            },
        }
    }
}

/// A route found among the first `n` routes is the route found among all.
pub proof fn lemma_first_route_grows<H>(
    routes: Seq<Route<H>>,
    n: int,
    method: Method,
    path: Seq<char>,
)
    requires
        0 <= n <= routes.len(),
        first_route(routes.take(n), method, path) is Some,
    ensures
        first_route(routes, method, path) == first_route(routes.take(n), method, path),
    decreases routes.len() - n,
{
    if n < routes.len() {
        assert(routes.take(n + 1).drop_last() =~= routes.take(n));
        lemma_first_route_grows(routes, n + 1, method, path);
    } else {
        assert(routes.take(n) =~= routes);
    }
}

/// The dispatch table: routes in the order in which they are tried.
pub struct Router<H> {
    pub routes: Vec<Route<H>>,
}

/// What to do with the bytes of one connection.
pub enum Dispatch<'a, H> {
    /// Hand the request to this handler.
    Handle(&'a H, HttpRequest),
    /// Send this response.
    Reply(HttpResponse),
}

/// The response that carries a status and nothing else.
pub open spec fn bare(status: Status) -> ResponseView {
    ResponseView { status, headers: Seq::empty(), body: Seq::empty() }
}

/// `decision` is what the table `routes` asks for on the bytes `raw`.
/// Bytes that are no request are answered with `400 Bad Request`; a request
/// that no route answers, with `404 Not Found`; any other request goes to
/// the handler of the first route that answers it.
pub open spec fn decides<H>(routes: Seq<Route<H>>, raw: Seq<u8>, decision: Dispatch<H>) -> bool {
    match parsed(raw) {
        Err(_) => decision matches Dispatch::Reply(response) && response@ == bare(
            Status::BadRequest,
        ),
        Ok(view) => match first_route(routes, view.method, view.path) {
            Some(i) => decision matches Dispatch::Handle(handler, request) && *handler
                == routes[i].handler && request@ == view,
            None => decision matches Dispatch::Reply(response) && response@ == bare(
                Status::NotFound,
            ),
        },
    }
}

/// Bytes that are no request reach no handler: they are answered, and
/// with a status that blames the client.
pub proof fn lemma_rejection_is_client_error<H>(
    routes: Seq<Route<H>>,
    raw: Seq<u8>,
    decision: Dispatch<H>,
)
    requires
        parsed(raw) is Err,
        decides(routes, raw, decision),
    ensures
        decision matches Dispatch::Reply(response) && 400 <= response@.status.code_of() <= 499,
{
}

impl<H> Router<H> {
    /// A table without routes.
    pub fn new() -> (router: Self)
        ensures
            router.routes@ == Seq::<Route<H>>::empty(),
    {
        Router { routes: Vec::new() }
    }

    /// Looks up the handler for `request`: that of the first route with
    /// the request's method whose pattern covers the request's path.
    pub fn route(&self, request: &HttpRequest) -> (r: Option<&H>)
        ensures
            match first_route(self.routes@, request@.method, request@.path) {
                Some(i) => r == Some(&self.routes@[i].handler),
                None => r is None,
            },
    {
        let path = match &request.resource {
            Resource::Path(p) => to_chars(p.as_str()),
        };
        let n = self.routes.len();
        let mut i: usize = 0;
        proof {
            assert(self.routes@.take(0) =~= Seq::empty());
        }
        while i < n
            invariant
                i <= n,
                n == self.routes@.len(),
                path@ == request@.path,
                first_route(self.routes@.take(i as int), request@.method, request@.path) is None,
            decreases n - i,
        {
            proof {
                assert(self.routes@.take(i + 1).drop_last() =~= self.routes@.take(i as int));
            }
            if self.routes[i].method == request.method && self.routes[i].pattern.is_match(
                path.as_slice(),
            ) {
                proof {
                    lemma_first_route_grows(self.routes@, i + 1, request@.method, request@.path);
                }
                return Some(&self.routes[i].handler);
            }
            i += 1;
        }
        proof {
            assert(self.routes@.take(n as int) =~= self.routes@);
        }
        None
    }

    /// Decides what to do with the bytes of one connection: parses them
    /// and looks up the handler.
    pub fn dispatch(&self, raw: &[u8]) -> (decision: Dispatch<'_, H>)
        ensures
            decides(self.routes@, raw@, decision),
    {
        match HttpRequest::parse(raw) {
            Err(_) => Dispatch::Reply(HttpResponse::new(Status::BadRequest)),
            Ok(request) => match self.route(&request) {
                Some(handler) => Dispatch::Handle(handler, request),
                None => Dispatch::Reply(HttpResponse::new(Status::NotFound)),
            },
        }
    }
}

} // verus!
