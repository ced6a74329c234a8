//! Requests, handlers and the router: which registered pattern a path
//! matches, and the parameters that the match binds.
use vstd::prelude::*;

use crate::params::{no_params, param_map, params_get, params_insert, params_new, Params};
use crate::response::Response;
use crate::server::{parse_request_line, request_method, request_target};
use crate::split::{law_tokens_concat, lemma_tokens_plain, split_tokens, tokens, views, Separator};
use crate::text::str_eq;

verus! {

/// HTTP request data; it lives as long as the request's buffer.
pub struct Request<'a> {
    /// The request's method, such as `GET`.
    pub method: &'a str,
    /// The request's path.
    pub path: &'a str,
    /// The values that the route's `{name}` segments matched, by name.
    pub params: Params<'a>,
}

impl<'a> Request<'a> {
    /// The value that the path segment under `{name}` matched.
    pub fn param(&self, name: &str) -> (r: Option<&'a str>)
        ensures
            r is Some <==> param_map(self.params).dom().contains(name@),
            r matches Some(v) ==> v@ == param_map(self.params)[name@],
    {
        params_get(&self.params, name)
    }
}

/// What answers a request on a route.
pub trait Handler: Send + Sync {
    /// `resp` is an answer that this handler gives to `req`.
    spec fn gives(&self, req: Request, resp: Response) -> bool;

    /// Answers `req`.
    fn call(&self, req: Request) -> (resp: Response)
        ensures
            self.gives(req, resp),
    ;
}

/// Calls a handler written as a closure (the closure's `Fn::call`). The claim is only
/// that, where the closure's own contract admits `req`, the response is one that its
/// contract allows for `req`; nothing is claimed where it does not admit `req`.
#[verifier::external_body]
fn call_closure<F: Fn(Request) -> Response>(f: &F, req: Request) -> (resp: Response)
    ensures
        call_requires(*f, (req,)) ==> call_ensures(*f, (req,), resp),
{
    f(req)
}

impl<F> Handler for F where F: Fn(Request) -> Response + Send + Sync {
    open spec fn gives(&self, req: Request, resp: Response) -> bool {
        call_requires(*self, (req,)) ==> call_ensures(*self, (req,), resp)
    }

    fn call(&self, req: Request) -> (resp: Response) {
        call_closure(self, req)
    }
}

impl Handler for Box<dyn Handler> {
    open spec fn gives(&self, req: Request, resp: Response) -> bool {
        (**self).gives(req, resp)
    }

    fn call(&self, req: Request) -> (resp: Response) {
        (**self).call(req)
    }
}

/// The segments of a path or pattern: its non-empty pieces between `/`.
pub open spec fn segments(s: Seq<char>) -> Seq<Seq<char>> {
    tokens(s, Separator::Slash)
}

/// A pattern segment of the form `{name}`, which matches any path segment.
pub open spec fn is_placeholder(seg: Seq<char>) -> bool {
    seg.len() > 0 && seg[0] == '{' && seg.last() == '}'
}

/// The name inside a `{name}` segment.
pub open spec fn placeholder_name(seg: Seq<char>) -> Seq<char> {
    seg.subrange(1, seg.len() - 1)
}

/// `m` after storing `v` under `k` where the parameter map has room: a name already
/// held takes the new value, a new name is stored while fewer than eight are held,
/// and is dropped otherwise.
pub open spec fn bind(m: Map<Seq<char>, Seq<char>>, k: Seq<char>, v: Seq<char>) -> Map<
    Seq<char>,
    Seq<char>,
> {
    if m.dom().contains(k) || m.dom().len() < 8 {
        m.insert(k, v)
    } else {
        m
    }
}

/// The parameters that pattern segments `qs` bind to path segments `ps`, taken in order.
pub open spec fn bind_params(qs: Seq<Seq<char>>, ps: Seq<Seq<char>>) -> Map<Seq<char>, Seq<char>>
    decreases qs.len(),
{
    if qs.len() == 0 {
        Map::empty()
    } else {
        let m = bind_params(qs.drop_last(), ps.drop_last());
        if is_placeholder(qs.last()) {
            bind(m, placeholder_name(qs.last()), ps[qs.len() - 1])
        } else {
            m
        }
    }
}

/// Each pattern segment is a placeholder or equals the path segment in its place.
pub open spec fn segments_agree(qs: Seq<Seq<char>>, ps: Seq<Seq<char>>) -> bool {
    forall|i: int| 0 <= i < qs.len() ==> is_placeholder(#[trigger] qs[i]) || qs[i] == ps[i]
}

/// Whether `path` matches `pattern`, and the parameters the match binds: they have as
/// many segments, and the segments agree.
pub open spec fn route_match(path: Seq<char>, pattern: Seq<char>) -> Option<
    Map<Seq<char>, Seq<char>>,
> {
    let ps = segments(path);
    let qs = segments(pattern);
    if ps.len() == qs.len() && segments_agree(qs, ps) {
        Some(bind_params(qs, ps))
    } else {
        None
    }
}

/// Bound parameters are finite and never more than eight.
pub proof fn lemma_bind_params_bounded(qs: Seq<Seq<char>>, ps: Seq<Seq<char>>)
    ensures
        bind_params(qs, ps).dom().finite(),
        bind_params(qs, ps).dom().len() <= 8,
    decreases qs.len(),
{
    if qs.len() > 0 {
        lemma_bind_params_bounded(qs.drop_last(), ps.drop_last());
        let m = bind_params(qs.drop_last(), ps.drop_last());
        if is_placeholder(qs.last()) {
            let k = placeholder_name(qs.last());
            if m.dom().contains(k) {
                assert(m.insert(k, ps[qs.len() - 1]).dom() =~= m.dom());
            }
        }
    }
}

/// Matches `path` against `pattern` and collects the parameters that the pattern's
/// `{name}` segments bind.
pub fn match_route<'a>(path: &'a str, pattern: &'a str) -> (r: Option<Params<'a>>)
    ensures
        route_match(path@, pattern@) is None ==> r is None,
        route_match(path@, pattern@) matches Some(m) ==> (r matches Some(p) && param_map(p) == m),
{
    let ps = split_tokens(path, Separator::Slash);
    let qs = split_tokens(pattern, Separator::Slash);
    let ghost pv = views(ps@);
    let ghost qv = views(qs@);
    if ps.len() != qs.len() {
        return None;
    }
    let mut params = params_new();
    let mut i: usize = 0;
    assert(bind_params(qv.take(0), pv.take(0)) =~= param_map(params));
    while i < qs.len()
        invariant
            i <= qs.len(),
            ps.len() == qs.len(),
            pv == views(ps@),
            qv == views(qs@),
            pv == segments(path@),
            qv == segments(pattern@),
            param_map(params) == bind_params(qv.take(i as int), pv.take(i as int)),
            segments_agree(qv.take(i as int), pv.take(i as int)),
        decreases qs.len() - i,
    {
        let q = qs[i];
        let p = ps[i];
        assert(qv[i as int] == q@);
        assert(pv[i as int] == p@);
        assert(qv.take(i + 1).drop_last() =~= qv.take(i as int));
        assert(pv.take(i + 1).drop_last() =~= pv.take(i as int));
        assert(qv.take(i + 1).last() == q@);
        let n = q.unicode_len();
        if n > 0 && q.get_char(0) == '{' && q.get_char(n - 1) == '}' {
            let name = q.substring_char(1, n - 1);
            proof {
                lemma_bind_params_bounded(qv.take(i as int), pv.take(i as int));
            }
            let _ = params_insert(&mut params, name, p);
            assert(param_map(params) == bind_params(qv.take(i + 1), pv.take(i + 1)));
        } else if !str_eq(q, p) {
            assert(!(is_placeholder(qv[i as int]) || qv[i as int] == pv[i as int]));
            return None;
        }
        assert(segments_agree(qv.take(i + 1), pv.take(i + 1)));
        i = i + 1;
    }
    assert(qv.take(i as int) =~= qv);
    assert(pv.take(i as int) =~= pv);
    Some(params)
}

/// The registered routes, in the order they were registered: a pattern and its handler.
/// A program that registers handlers of several types uses boxed handlers
/// (`Router<Box<dyn Handler>>`).
pub struct Router<H> {
    routes: Vec<(String, H)>,
}

impl<H: Handler> Router<H> {
    /// The registered patterns, in order.
    pub closed spec fn patterns(&self) -> Seq<Seq<char>> {
        Seq::new(self.routes@.len(), |i: int| self.routes@[i].0@)
    }

    /// The registered handlers, in order: `handlers()[i]` answers for `patterns()[i]`.
    pub closed spec fn handlers(&self) -> Seq<H> {
        Seq::new(self.routes@.len(), |i: int| self.routes@[i].1)
    }

    /// The route at `i` is the first registered one whose pattern matches `path`.
    pub open spec fn first_match(&self, path: Seq<char>, i: int) -> bool {
        &&& 0 <= i < self.patterns().len()
        &&& route_match(path, self.patterns()[i]) is Some
        &&& forall|j: int| 0 <= j < i ==> route_match(path, #[trigger] self.patterns()[j]) is None
    }

    /// `resp` is what the first route matching `path` answers to a request for `method`
    /// on `path` that carries the parameters the match binds.
    pub open spec fn gives_answer(&self, method: Seq<char>, path: Seq<char>, resp: Response) -> bool {
        exists|i: int, req: Request|
            {
                &&& self.first_match(path, i)
                &&& req.method@ == method
                &&& req.path@ == path
                &&& route_match(path, self.patterns()[i]) == Some(param_map(req.params))
                &&& #[trigger] self.handlers()[i].gives(req, resp)
            }
    }

    /// Some registered pattern matches `path`.
    pub open spec fn some_match(&self, path: Seq<char>) -> bool {
        exists|i: int| 0 <= i < self.patterns().len() && route_match(path, #[trigger] self.patterns()[i]) is Some
    }

    /// A request for `method` on `path` is answered by a route: only `GET` requests are.
    pub open spec fn answers(&self, method: Seq<char>, path: Seq<char>) -> bool {
        method == "GET"@ && self.some_match(path)
    }

    /// A router with no routes.
    pub fn new() -> (r: Router<H>)
        ensures
            r.patterns().len() == 0,
            r.handlers().len() == 0,
    {
        Router { routes: Vec::new() }
    }

    /// Registers `handler` for `GET` requests whose path matches `pattern`.
    pub fn get(&mut self, pattern: &str, handler: H)
        ensures
            final(self).patterns() == old(self).patterns().push(pattern@),
            final(self).handlers() == old(self).handlers().push(handler),
    {
        self.routes.push((pattern.to_owned(), handler));
        assert(self.patterns() =~= old(self).patterns().push(pattern@));
        assert(self.handlers() =~= old(self).handlers().push(handler));
    }

    /// The first registered route whose pattern matches `path`, with the parameters
    /// the match binds.
    pub fn select_route<'a>(&'a self, path: &'a str) -> (r: Option<(usize, Params<'a>)>)
        ensures
            r matches Some((i, m)) ==> {
                &&& i < self.patterns().len()
                &&& route_match(path@, self.patterns()[i as int]) == Some(param_map(m))
                &&& forall|j: int| 0 <= j < i ==> route_match(path@, #[trigger] self.patterns()[j]) is None
            },
            r is None ==> !self.some_match(path@),
    {
        let mut i: usize = 0;
        while i < self.routes.len()
            invariant
                i <= self.routes@.len(),
                forall|j: int| 0 <= j < i ==> route_match(path@, #[trigger] self.patterns()[j]) is None,
            decreases self.routes@.len() - i,
        {
            let pattern: &'a str = self.routes[i].0.as_str();
            assert(self.patterns()[i as int] == pattern@);
            match match_route(path, pattern) {
                Some(params) => {
                    return Some((i, params));
                },
                None => {},
            }
            i = i + 1;
        }
        None
    }

    /// Answers a `GET` request on `path` with the handler of the first route whose
    /// pattern matches; `None` for another method or where no pattern matches.
    pub fn route<'a>(&'a self, method: &'a str, path: &'a str) -> (r: Option<Response>)
        ensures
            r is Some <==> self.answers(method@, path@),
            r matches Some(resp) ==> self.gives_answer(method@, path@, resp),
    {
        if !str_eq(method, "GET") {
            return None;
        }
        match self.select_route(path) {
            Some((i, params)) => {
                let req = Request { method, path, params };
                let ghost asked = req;
                let resp = self.routes[i].1.call(req);
                assert(self.handlers()[i as int] == self.routes@[i as int].1);
                assert(self.handlers()[i as int].gives(asked, resp));
                Some(resp)
            },
            None => None,
        }
    }

    /// The response to a request read from the network: the route's answer to the
    /// method and path its first line names, `404 Not Found` where no route answers.
    pub fn respond(&self, request: &[u8]) -> (r: Response)
        ensures
            !self.answers(request_method(request@), request_target(request@)) ==> r.is_not_found(),
            self.answers(request_method(request@), request_target(request@)) ==> self.gives_answer(
                request_method(request@),
                request_target(request@),
                r,
            ),
    {
        let (method, path) = parse_request_line(request);
        match self.route(method, path) {
            Some(resp) => resp,
            None => Response::not_found(),
        }
    }
}

/// How many placeholder segments `qs` holds.
pub open spec fn placeholder_count(qs: Seq<Seq<char>>) -> nat
    decreases qs.len(),
{
    if qs.len() == 0 {
        0
    } else {
        placeholder_count(qs.drop_last()) + if is_placeholder(qs.last()) {
            1nat
        } else {
            0nat
        }
    }
}

proof fn lemma_bind_params_len(qs: Seq<Seq<char>>, ps: Seq<Seq<char>>)
    ensures
        bind_params(qs, ps).dom().finite(),
        bind_params(qs, ps).dom().len() <= placeholder_count(qs),
    decreases qs.len(),
{
    lemma_bind_params_bounded(qs, ps);
    if qs.len() > 0 {
        lemma_bind_params_len(qs.drop_last(), ps.drop_last());
        let m = bind_params(qs.drop_last(), ps.drop_last());
        if is_placeholder(qs.last()) {
            let k = placeholder_name(qs.last());
            if m.dom().contains(k) {
                assert(m.insert(k, ps[qs.len() - 1]).dom() =~= m.dom());
            }
        }
    }
}

proof fn lemma_bind_params_value(qs: Seq<Seq<char>>, ps: Seq<Seq<char>>, i: int)
    requires
        0 <= i < qs.len(),
        qs.len() == ps.len(),
        is_placeholder(qs[i]),
        placeholder_count(qs) <= 8,
        forall|j: int|
            i < j < qs.len() && is_placeholder(#[trigger] qs[j]) ==> placeholder_name(qs[j])
                != placeholder_name(qs[i]),
    ensures
        bind_params(qs, ps).dom().contains(placeholder_name(qs[i])),
        bind_params(qs, ps)[placeholder_name(qs[i])] == ps[i],
    decreases qs.len(),
{
    let n = qs.len() - 1;
    let front = qs.drop_last();
    lemma_bind_params_len(front, ps.drop_last());
    if i == n {
        assert(placeholder_count(front) <= 7);
    } else {
        assert(is_placeholder(front[i]));
        assert forall|j: int|
            i < j < front.len() && is_placeholder(#[trigger] front[j]) implies placeholder_name(
            front[j],
        ) != placeholder_name(front[i]) by {
            assert(qs[j] == front[j]);
        }
        lemma_bind_params_value(front, ps.drop_last(), i);
        if is_placeholder(qs.last()) {
            assert(placeholder_name(qs[n]) != placeholder_name(qs[i]));
        }
    }
}

/// What a route promises its handler: where a path matches a pattern that has at most
/// eight `{name}` segments, the parameter named by the last `{name}` segment of each
/// name holds the path segment in that segment's place. So `/led/{state}` on `/led/on`
/// gives `state` the value `on`.
pub proof fn law_placeholder_binds_segment(path: Seq<char>, pattern: Seq<char>, i: int)
    requires
        route_match(path, pattern) is Some,
        0 <= i < segments(pattern).len(),
        is_placeholder(segments(pattern)[i]),
        placeholder_count(segments(pattern)) <= 8,
        forall|j: int|
            i < j < segments(pattern).len() && is_placeholder(#[trigger] segments(pattern)[j])
                ==> placeholder_name(segments(pattern)[j]) != placeholder_name(
                segments(pattern)[i],
            ),
    ensures
        route_match(path, pattern)->0.dom().contains(placeholder_name(segments(pattern)[i])),
        route_match(path, pattern)->0[placeholder_name(segments(pattern)[i])] == segments(
            path,
        )[i],
{
    lemma_bind_params_value(segments(pattern), segments(path), i);
}

proof fn lemma_bind_params_literal(qs: Seq<Seq<char>>, ps: Seq<Seq<char>>)
    requires
        forall|i: int| 0 <= i < qs.len() ==> !is_placeholder(#[trigger] qs[i]),
    ensures
        bind_params(qs, ps) == no_params(),
    decreases qs.len(),
{
    if qs.len() > 0 {
        assert(!is_placeholder(qs[qs.len() - 1]));
        lemma_bind_params_literal(qs.drop_last(), ps.drop_last());
    }
}

/// A pattern without `{name}` segments matches exactly the paths with the same
/// segments, and binds no parameter.
pub proof fn law_literal_pattern(path: Seq<char>, pattern: Seq<char>)
    requires
        forall|i: int|
            0 <= i < segments(pattern).len() ==> !is_placeholder(#[trigger] segments(pattern)[i]),
    ensures
        route_match(path, pattern) is Some <==> segments(path) == segments(pattern),
        route_match(path, pattern) is Some ==> route_match(path, pattern)->0 == no_params(),
{
    let ps = segments(path);
    let qs = segments(pattern);
    lemma_bind_params_literal(qs, ps);
    if ps.len() == qs.len() && segments_agree(qs, ps) {
        assert forall|i: int| 0 <= i < qs.len() implies qs[i] == ps[i] by {
            assert(!is_placeholder(qs[i]));
        }
        assert(ps =~= qs);
    }
}

/// Empty segments do not count: a `/` more between two parts of a path, or at its end,
/// changes no match.
pub proof fn law_extra_slash_ignored(a: Seq<char>, b: Seq<char>, pattern: Seq<char>)
    ensures
        route_match(a.push('/').push('/') + b, pattern) == route_match(a.push('/') + b, pattern),
        route_match(a.push('/'), pattern) == route_match(a, pattern),
{
    let sep = Separator::Slash;
    law_tokens_concat(a.push('/'), '/', b, sep);
    law_tokens_concat(a, '/', Seq::<char>::empty(), sep);
    law_tokens_concat(a, '/', b, sep);
    lemma_tokens_plain(Seq::<char>::empty(), sep);
    assert(a.push('/') + Seq::<char>::empty() =~= a.push('/'));
    assert(tokens(a.push('/'), sep) =~= tokens(a, sep));
    assert(tokens(a.push('/').push('/') + b, sep) =~= tokens(a.push('/') + b, sep));
}

/// A route registered later never takes a path from an earlier one: if the route at
/// `i` is the first whose pattern matches `path`, it stays the first after another
/// pattern is registered.
pub proof fn law_registration_keeps_first_match(
    patterns: Seq<Seq<char>>,
    pattern: Seq<char>,
    path: Seq<char>,
    i: int,
)
    requires
        0 <= i < patterns.len(),
        route_match(path, patterns[i]) is Some,
        forall|j: int| 0 <= j < i ==> route_match(path, #[trigger] patterns[j]) is None,
    ensures
        route_match(path, patterns.push(pattern)[i]) is Some,
        forall|j: int| 0 <= j < i ==> route_match(path, #[trigger] patterns.push(pattern)[j]) is None,
{
    assert forall|j: int| 0 <= j < i implies route_match(path, #[trigger] patterns.push(pattern)[j]) is None by {
        assert(patterns.push(pattern)[j] == patterns[j]);
    }
}

/// Registering a route never changes how a request that was already answered is
/// answered: it is still answered, and by the handler of the same earlier route, so a
/// response is what the router gives after the registration exactly when it was before.
pub proof fn law_registration_keeps_answer<H: Handler>(
    before: Router<H>,
    after: Router<H>,
    pattern: Seq<char>,
    handler: H,
    method: Seq<char>,
    path: Seq<char>,
    resp: Response,
)
    requires
        after.patterns() == before.patterns().push(pattern),
        after.handlers() == before.handlers().push(handler),
        before.answers(method, path),
    ensures
        after.answers(method, path),
        after.gives_answer(method, path, resp) <==> before.gives_answer(method, path, resp),
{
    let n = before.patterns().len();
    assert(before.handlers().len() == n);
    let k = choose|k: int| 0 <= k < n && route_match(path, #[trigger] before.patterns()[k]) is Some;
    assert(after.patterns()[k] == before.patterns()[k]);
    assert(after.some_match(path));
    if before.gives_answer(method, path, resp) {
        let (i, req) = choose|i: int, req: Request|
            {
                &&& before.first_match(path, i)
                &&& req.method@ == method
                &&& req.path@ == path
                &&& route_match(path, before.patterns()[i]) == Some(param_map(req.params))
                &&& #[trigger] before.handlers()[i].gives(req, resp)
            };
        assert(after.patterns()[i] == before.patterns()[i]);
        assert(after.handlers()[i] == before.handlers()[i]);
        assert forall|j: int| 0 <= j < i implies route_match(path, #[trigger] after.patterns()[j]) is None by {
            assert(after.patterns()[j] == before.patterns()[j]);
        }
        assert(after.first_match(path, i));
    }
    if after.gives_answer(method, path, resp) {
        let (i, req) = choose|i: int, req: Request|
            {
                &&& after.first_match(path, i)
                &&& req.method@ == method
                &&& req.path@ == path
                &&& route_match(path, after.patterns()[i]) == Some(param_map(req.params))
                &&& #[trigger] after.handlers()[i].gives(req, resp)
            };
        assert(i <= k);
        assert(after.patterns()[i] == before.patterns()[i]);
        assert(after.handlers()[i] == before.handlers()[i]);
        assert forall|j: int| 0 <= j < i implies route_match(path, #[trigger] before.patterns()[j]) is None by {
            assert(after.patterns()[j] == before.patterns()[j]);
        }
        assert(before.first_match(path, i));
    }
}

/// A route registered for a path that no earlier pattern matches answers a `GET`
/// request on that path: the response is what its handler gives to the request that
/// carries the parameters its pattern binds.
pub proof fn law_new_route_answers<H: Handler>(
    before: Router<H>,
    after: Router<H>,
    pattern: Seq<char>,
    handler: H,
    path: Seq<char>,
    resp: Response,
)
    requires
        after.patterns() == before.patterns().push(pattern),
        after.handlers() == before.handlers().push(handler),
        !before.some_match(path),
        route_match(path, pattern) is Some,
    ensures
        after.answers("GET"@, path),
        after.gives_answer("GET"@, path, resp) <==> exists|req: Request|
            {
                &&& req.method@ == "GET"@
                &&& req.path@ == path
                &&& route_match(path, pattern) == Some(param_map(req.params))
                &&& #[trigger] handler.gives(req, resp)
            },
{
    let n = before.patterns().len();
    assert(before.handlers().len() == n);
    assert(after.patterns()[n as int] == pattern);
    assert(after.handlers()[n as int] == handler);
    assert forall|j: int| 0 <= j < n implies route_match(path, #[trigger] after.patterns()[j]) is None by {
        assert(after.patterns()[j] == before.patterns()[j]);
    }
    assert(after.first_match(path, n as int));
    if after.gives_answer("GET"@, path, resp) {
        let (i, req) = choose|i: int, req: Request|
            {
                &&& after.first_match(path, i)
                &&& req.method@ == "GET"@
                &&& req.path@ == path
                &&& route_match(path, after.patterns()[i]) == Some(param_map(req.params))
                &&& #[trigger] after.handlers()[i].gives(req, resp)
            };
        if i < n {
            assert(after.patterns()[i] == before.patterns()[i]);
            assert(route_match(path, before.patterns()[i]) is Some);
        }
        assert(i == n);
        assert(handler.gives(req, resp));
    }
    if exists|req: Request|
        {
            &&& req.method@ == "GET"@
            &&& req.path@ == path
            &&& route_match(path, pattern) == Some(param_map(req.params))
            &&& #[trigger] handler.gives(req, resp)
        } {
        let req = choose|req: Request|
            {
                &&& req.method@ == "GET"@
                &&& req.path@ == path
                &&& route_match(path, pattern) == Some(param_map(req.params))
                &&& #[trigger] handler.gives(req, resp)
            };
        assert(after.handlers()[n as int].gives(req, resp));
    }
}

/// What decides a match: a path matches a pattern exactly when they have as many
/// segments and every literal (non-`{name}`) pattern segment equals the path segment
/// in its place; a `{name}` segment matches any path segment.
pub proof fn law_literal_segments_decide_match(path: Seq<char>, pattern: Seq<char>)
    ensures
        route_match(path, pattern) is Some <==> {
            &&& segments(path).len() == segments(pattern).len()
            &&& forall|i: int|
                0 <= i < segments(pattern).len() && !is_placeholder(#[trigger] segments(pattern)[i])
                    ==> segments(pattern)[i] == segments(path)[i]
        },
{
}

/// A literal pattern segment that differs from the path segment in its place rules
/// out the match, wherever it stands.
pub proof fn law_literal_mismatch_no_match(path: Seq<char>, pattern: Seq<char>, i: int)
    requires
        0 <= i < segments(pattern).len(),
        i < segments(path).len(),
        !is_placeholder(segments(pattern)[i]),
        segments(pattern)[i] != segments(path)[i],
    ensures
        route_match(path, pattern) is None,
{
    law_literal_segments_decide_match(path, pattern);
}

/// Only `GET` requests are answered, and every `GET` request on a path that some
/// registered pattern matches is.
pub proof fn law_only_get_answered<H: Handler>(router: Router<H>, method: Seq<char>, path: Seq<char>)
    ensures
        router.answers(method, path) ==> method == "GET"@,
        method == "GET"@ && (exists|i: int|
            0 <= i < router.patterns().len() && route_match(path, #[trigger] router.patterns()[i]) is Some)
            ==> router.answers(method, path),
{
}

} // verus!
