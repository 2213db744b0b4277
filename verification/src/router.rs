//! The routing table and the response that each route produces.

use vstd::prelude::*;
use vstd::slice::slice_subrange;
use vstd::string::StringSliceAdditionalSpecFns;
use crate::request::{header_views, HttpRequest, RequestModel};
use crate::response::{no_bytes, not_found, ok_with, ResponseModel, ResponseSpec};
use crate::text::{bytes_eq, eq_ignore_ascii_case, eq_ignore_case, lemma_ascii_bytes, starts_with};

verus! {

/// A route as plain values: what a [`Route`] stands for.
pub enum RouteModel {
    Root,
    Echo(Seq<u8>),
    UserAgent,
    NotFound,
}

/// Where a request goes.
#[derive(Debug, Clone, Copy)]
pub enum Route<'a> {
    /// `GET /`.
    Root,
    /// `GET /echo/...`, with the bytes of the target after `/echo/`.
    Echo(&'a [u8]),
    /// `GET /user-agent...`.
    UserAgent,
    /// Everything else.
    NotFound,
}

impl<'a> View for Route<'a> {
    type V = RouteModel;

    open spec fn view(&self) -> RouteModel {
        match *self {
            Route::Root => RouteModel::Root,
            Route::Echo(rest) => RouteModel::Echo(rest@),
            Route::UserAgent => RouteModel::UserAgent,
            Route::NotFound => RouteModel::NotFound,
        }
    }
}

/// The value of the first header whose name is `name`, letter case aside.
pub open spec fn lookup(headers: Seq<(Seq<u8>, Seq<u8>)>, name: Seq<u8>) -> Option<Seq<u8>>
    decreases headers.len(),
{
    if headers.len() == 0 {
        None
    } else if eq_ignore_ascii_case(headers[0].0, name) {
        Some(headers[0].1)
    } else {
        lookup(headers.skip(1), name)
    }
}

/// The first rule of the table: `GET` and the target `/`.
pub open spec fn matches_root(request: RequestModel) -> bool {
    request.method == "GET".spec_bytes() && request.path == "/".spec_bytes()
}

/// The second rule: `GET` and a target that begins with `/echo/`.
pub open spec fn matches_echo(request: RequestModel) -> bool {
    request.method == "GET".spec_bytes() && "/echo/".spec_bytes().is_prefix_of(request.path)
}

/// The third rule: `GET` and a target that begins with `/user-agent`.
pub open spec fn matches_user_agent(request: RequestModel) -> bool {
    request.method == "GET".spec_bytes() && "/user-agent".spec_bytes().is_prefix_of(
        request.path,
    )
}

/// The routing table, read from the top: the first rule that matches decides.
pub open spec fn route_of(request: RequestModel) -> RouteModel {
    if matches_root(request) {
        RouteModel::Root
    } else if matches_echo(request) {
        RouteModel::Echo(request.path.skip("/echo/".spec_bytes().len() as int))
    } else if matches_user_agent(request) {
        RouteModel::UserAgent
    } else {
        RouteModel::NotFound
    }
}

/// The response to a request: what its route produces.
pub open spec fn response_for(request: RequestModel) -> ResponseModel {
    match route_of(request) {
        RouteModel::Root => ok_with(Seq::empty()),
        RouteModel::Echo(rest) => ok_with(rest),
        RouteModel::UserAgent => ok_with(
            match lookup(request.headers, "User-Agent".spec_bytes()) {
                Some(value) => value,
                None => Seq::empty(),
            },
        ),
        RouteModel::NotFound => not_found(),
    }
}

/// Whether two header lists hold the same values in the same order, under
/// names that differ in letter case at most.
pub open spec fn same_fields_ignoring_case(
    a: Seq<(Seq<u8>, Seq<u8>)>,
    b: Seq<(Seq<u8>, Seq<u8>)>,
) -> bool {
    &&& a.len() == b.len()
    &&& forall|i: int|
        #![trigger a[i]]
        0 <= i < a.len() ==> eq_ignore_ascii_case(a[i].0, b[i].0) && a[i].1 == b[i].1
}

/// Equality up to letter case is an equivalence: reflexive, symmetric and
/// transitive.
pub proof fn lemma_eq_ignore_ascii_case(a: Seq<u8>, b: Seq<u8>, c: Seq<u8>)
    ensures
        eq_ignore_ascii_case(a, a),
        eq_ignore_ascii_case(a, b) ==> eq_ignore_ascii_case(b, a),
        eq_ignore_ascii_case(a, b) && eq_ignore_ascii_case(b, c) ==> eq_ignore_ascii_case(a, c),
{
}

/// Texts that are equal up to letter case compare alike with one another.
proof fn lemma_eq_ignore_ascii_case_alike(a: Seq<u8>, b: Seq<u8>, c: Seq<u8>, d: Seq<u8>)
    requires
        eq_ignore_ascii_case(a, b),
        eq_ignore_ascii_case(c, d),
    ensures
        eq_ignore_ascii_case(a, c) == eq_ignore_ascii_case(b, d),
{
    lemma_eq_ignore_ascii_case(a, b, d);
    lemma_eq_ignore_ascii_case(b, a, c);
    lemma_eq_ignore_ascii_case(c, d, c);
    lemma_eq_ignore_ascii_case(a, c, d);
    lemma_eq_ignore_ascii_case(b, d, c);
}

/// Every request matches at most one rule of the table, and its route is the
/// rule it matches, or `NotFound` where it matches none.
pub proof fn lemma_routes_exclusive(request: RequestModel)
    ensures
        !(matches_root(request) && matches_echo(request)),
        !(matches_root(request) && matches_user_agent(request)),
        !(matches_echo(request) && matches_user_agent(request)),
        route_of(request) is Root <==> matches_root(request),
        route_of(request) is Echo <==> matches_echo(request),
        route_of(request) is UserAgent <==> matches_user_agent(request),
        route_of(request) is NotFound <==> !matches_root(request) && !matches_echo(request)
            && !matches_user_agent(request),
{
    reveal_strlit("/");
    reveal_strlit("/echo/");
    reveal_strlit("/user-agent");
    assert("/".is_ascii() && "/echo/".is_ascii() && "/user-agent".is_ascii());
    lemma_ascii_bytes("/");
    lemma_ascii_bytes("/echo/");
    lemma_ascii_bytes("/user-agent");
    let echo = "/echo/".spec_bytes();
    let agent = "/user-agent".spec_bytes();
    if echo.is_prefix_of(request.path) && agent.is_prefix_of(request.path) {
        assert(request.path.subrange(0, echo.len() as int)[1] == echo[1]);
        assert(request.path.subrange(0, agent.len() as int)[1] == agent[1]);
    }
}

/// The lookup does not see letter case, neither in the names of the headers
/// nor in the name that is looked up.
pub proof fn lemma_lookup_ignores_case(
    a: Seq<(Seq<u8>, Seq<u8>)>,
    b: Seq<(Seq<u8>, Seq<u8>)>,
    name: Seq<u8>,
    other_name: Seq<u8>,
)
    requires
        same_fields_ignoring_case(a, b),
        eq_ignore_ascii_case(name, other_name),
    ensures
        lookup(a, name) == lookup(b, other_name),
    decreases a.len(),
{
    if a.len() > 0 {
        assert(eq_ignore_ascii_case(a[0].0, b[0].0) && a[0].1 == b[0].1);
        lemma_eq_ignore_ascii_case_alike(a[0].0, b[0].0, name, other_name);
        let a_rest = a.skip(1);
        let b_rest = b.skip(1);
        assert forall|i: int| #![trigger a_rest[i]] 0 <= i < a_rest.len() implies eq_ignore_ascii_case(
            a_rest[i].0,
            b_rest[i].0,
        ) && a_rest[i].1 == b_rest[i].1 by {
            assert(a_rest[i] == a[i + 1]);
            assert(b_rest[i] == b[i + 1]);
        }
        lemma_lookup_ignores_case(a_rest, b_rest, name, other_name);
    }
}

/// Two requests that differ only in the letter case of their header names get
/// the same response: the `User-Agent` header is found however it is written.
pub proof fn lemma_response_ignores_header_case(a: RequestModel, b: RequestModel)
    requires
        a.method == b.method,
        a.path == b.path,
        same_fields_ignoring_case(a.headers, b.headers),
    ensures
        response_for(a) == response_for(b),
{
    let name = "User-Agent".spec_bytes();
    lemma_eq_ignore_ascii_case(name, name, name);
    lemma_lookup_ignores_case(a.headers, b.headers, name, name);
}

impl<'a> HttpRequest<'a> {
    /// The value of the first header whose name is `name`, letter case aside.
    pub fn header(&self, name: &[u8]) -> (r: Option<&'a [u8]>)
        ensures
            match r {
                Some(value) => lookup(self@.headers, name@) == Some(value@),
                None => lookup(self@.headers, name@) is None,
            },
    {
        let ghost all = self@.headers;
        let mut i: usize = 0;
        assert(all.skip(0) =~= all);
        while i < self.headers.len()
            invariant
                i <= self.headers@.len(),
                all == header_views(self.headers@),
                lookup(all, name@) == lookup(all.skip(i as int), name@),
            decreases self.headers@.len() - i,
        {
            let field = self.headers[i];
            proof {
                assert(all.skip(i as int)[0] == (field.0@, field.1@));
                assert(all.skip(i as int).skip(1) =~= all.skip(i + 1));
            }
            if eq_ignore_case(field.0, name) {
                return Some(field.1);
            }
            i += 1;
        }
        None
    }

    /// The route of this request.
    pub fn route(&self) -> (r: Route<'a>)
        ensures
            r@ == route_of(self@),
    {
        if !bytes_eq(self.method, "GET".as_bytes()) {
            return Route::NotFound;
        }
        let echo = "/echo/".as_bytes();
        if bytes_eq(self.path, "/".as_bytes()) {
            Route::Root
        } else if starts_with(self.path, echo) {
            Route::Echo(slice_subrange(self.path, echo.len(), self.path.len()))
        } else if starts_with(self.path, "/user-agent".as_bytes()) {
            Route::UserAgent
        } else {
            Route::NotFound
        }
    }

    /// The response to this request.
    pub fn respond(&self) -> (r: ResponseSpec<'a>)
        ensures
            r@ == response_for(self@),
            r@.well_formed(),
    {
        match self.route() {
            Route::Root => ResponseSpec::ok(no_bytes()),
            Route::Echo(rest) => ResponseSpec::ok(rest),
            Route::UserAgent => match self.header("User-Agent".as_bytes()) {
                Some(value) => ResponseSpec::ok(value),
                None => ResponseSpec::ok(no_bytes()),
            },
            Route::NotFound => ResponseSpec::not_found(),
        }
    }
}

} // verus!
