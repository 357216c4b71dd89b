//! A request ready for routing: its path segments, its query and its route
//! parameters.
use vstd::prelude::*;
use crate::bindings::{percent_decode_lossy, percent_decoded};
use crate::common::{values_under, HttpMethod};
use crate::map::StrMap;
use crate::text::{keep_nonempty, split, split_once, split_once_str, split_str, texts};
use parser::Request as RawRequest;

pub mod parser;

verus! {

/// The path's segments: the pieces between `/`, empty ones dropped.
pub open spec fn path_segments(path: Seq<char>) -> Seq<Seq<char>> {
    keep_nonempty(split(path, '/'))
}

/// The path of a parsed URL; empty when there is none.
pub open spec fn url_path(url: Option<crate::request::parser::Url>) -> Seq<char> {
    match url {
        Some(u) => u@.0,
        None => Seq::<char>::empty(),
    }
}

/// The query of a parsed URL; none when there is no URL.
pub open spec fn url_query(url: Option<crate::request::parser::Url>) -> Option<Seq<char>> {
    match url {
        Some(u) => u@.1,
        None => None,
    }
}

/// The path of a parsed URL, as a string slice; empty when there is none.
fn path_of(url: &Option<crate::request::parser::Url>) -> (r: &str)
    ensures
        r@ == url_path(*url),
{
    match url {
        Some(u) => u.path(),
        None => {
            proof {
                reveal_strlit("");
            }
            ""
        },
    }
}

/// A request with its path split into segments and its query decoded.
/// (A request whose URL did not parse has an empty path and no query.)
pub struct Request {
    raw_request: RawRequest,
    pub method: HttpMethod,
    pub segments: Vec<String>,
    query: Query,
    pub params: Params,
    body: Option<Vec<u8>>,
}

/// A [`Request`] as values: method, path segments, query, route parameters,
/// URL path and body.
pub struct RequestView {
    pub method: HttpMethod,
    pub segments: Seq<Seq<char>>,
    pub query: Map<Seq<char>, Seq<Seq<char>>>,
    pub params: Map<Seq<char>, Seq<char>>,
    pub path: Seq<char>,
    pub body: Option<Seq<u8>>,
}

impl View for Request {
    type V = RequestView;

    closed spec fn view(&self) -> RequestView {
        RequestView {
            method: self.method,
            segments: texts(self.segments@),
            query: self.query@,
            params: self.params@,
            path: url_path(self.raw_request.url),
            body: match self.body {
                Some(b) => Some(b@),
                None => None,
            },
        }
    }
}

impl Request {
    /// The request for `raw_request`: segments of the URL's path, its query
    /// decoded, no route parameters and no body yet.
    pub fn new(raw_request: RawRequest) -> (r: Self)
        ensures
            r@.method == raw_request.method,
            r@.segments == path_segments(url_path(raw_request.url)),
            r@.query == query_map(url_query(raw_request.url)),
            r@.params == Map::<Seq<char>, Seq<char>>::empty(),
            r@.path == url_path(raw_request.url),
            r@.body is None,
    {
        let pieces = split_str(path_of(&raw_request.url), '/');
        let ghost all = split(url_path(raw_request.url), '/');
        let mut segments: Vec<String> = Vec::new();
        let mut i: usize = 0;
        assert(texts(pieces@) == all);
        while i < pieces.len()
            invariant
                i <= pieces@.len(),
                texts(pieces@) == all,
                texts(segments@) == keep_nonempty(all.take(i as int)),
            decreases pieces@.len() - i,
        {
            assert(texts(pieces@)[i as int] == pieces@[i as int]@);
            assert(all.take(i + 1).drop_last() =~= all.take(i as int));
            if !pieces[i].as_str().is_empty() {
                let ghost before = texts(segments@);
                segments.push(pieces[i].clone());
                assert(texts(segments@) =~= before.push(pieces@[i as int]@));
            }
            i = i + 1;
        }
        assert(all.take(i as int) =~= all);
        let query = Query::new(&raw_request);
        let params = Params::default();
        Request { method: raw_request.method.clone(), raw_request, segments, query, params, body: None }
    }

    /// The URL's path.
    pub fn path(&self) -> (r: &str)
        ensures
            r@ == self@.path,
    {
        path_of(&self.raw_request.url)
    }

    /// The decoded query.
    pub fn query(&self) -> (r: &Query)
        ensures
            r@ == self@.query,
    {
        &self.query
    }

    /// The route parameters.
    pub fn params(&self) -> (r: &Params)
        ensures
            r@ == self@.params,
    {
        &self.params
    }

    /// The body, if one was attached.
    pub fn body(&self) -> (r: Option<&[u8]>)
        ensures
            match r {
                Some(b) => self@.body == Some(b@),
                None => self@.body is None,
            },
    {
        match &self.body {
            Some(b) => Some(b.as_slice()),
            None => None,
        }
    }
}

/// Reads `key=value` parameters separated by `&` in order; a parameter without
/// `=` has an empty value. Keys and values are percent-decoded, and each value
/// is appended to those of its key.
pub open spec fn query_fold(acc: Map<Seq<char>, Seq<Seq<char>>>, params: Seq<Seq<char>>) -> Map<Seq<char>, Seq<Seq<char>>>
    decreases params.len(),
{
    if params.len() == 0 {
        acc
    } else {
        let (k, v) = match split_once(params[0], '=') {
            Some(p) => p,
            None => (params[0], Seq::<char>::empty()),
        };
        let kd = percent_decoded(k);
        let vd = percent_decoded(v);
        query_fold(acc.insert(kd, values_under(acc, kd).push(vd)), params.drop_first())
    }
}

/// The decoded query: empty when there is none.
pub open spec fn query_map(query: Option<Seq<char>>) -> Map<Seq<char>, Seq<Seq<char>>> {
    match query {
        None => Map::empty(),
        Some(q) => query_fold(Map::empty(), split(q, '&')),
    }
}

/// Query parameters: each key with all its values, in order.
pub struct Query(StrMap<Vec<String>>);

impl View for Query {
    type V = Map<Seq<char>, Seq<Seq<char>>>;

    closed spec fn view(&self) -> Map<Seq<char>, Seq<Seq<char>>> {
        self.0@
    }
}

impl Query {
    /// Decodes the query of `raw_request`'s URL (empty when it has none).
    pub fn new(raw_request: &RawRequest) -> (r: Self)
        ensures
            r@ == query_map(url_query(raw_request.url)),
    {
        let mut query_map_exec: StrMap<Vec<String>> = StrMap::new();
        let url_query_exec = match &raw_request.url {
            Some(u) => u.query(),
            None => None,
        };
        match url_query_exec {
            None => Query(query_map_exec),
            Some(query) => {
                let params = split_str(query, '&');
                let ghost all = split(query@, '&');
                let mut i: usize = 0;
                assert(texts(params@) == all);
                assert(all.skip(0) =~= all);
                while i < params.len()
                    invariant
                        i <= params@.len(),
                        texts(params@) == all,
                        query_fold(Map::empty(), all) == query_fold(query_map_exec@, all.skip(i as int)),
                    decreases params@.len() - i,
                {
                    let ghost rest = all.skip(i as int);
                    assert(rest[0] == params@[i as int]@);
                    assert(rest.drop_first() =~= all.skip(i + 1));
                    let parameter = params[i].as_str();
                    let (key, value) = match split_once_str(parameter, '=') {
                        Some(p) => p,
                        None => (parameter.to_owned(), String::new()),
                    };
                    let key_decoded = percent_decode_lossy(key.as_str());
                    let value_decoded = percent_decode_lossy(value.as_str());
                    let ghost vd = value_decoded@;
                    let ghost kd = key_decoded@;
                    let ghost before = query_map_exec@;
                    let one = vec![value_decoded];
                    assert(texts(one@) =~= seq![vd]);
                    crate::request::parser::append_values(&mut query_map_exec, key_decoded, &one);
                    assert(values_under(before, kd).push(vd) =~= values_under(before, kd) + seq![vd]);
                    assert(query_map_exec@ == before.insert(kd, values_under(before, kd).push(vd)));
                    i = i + 1;
                }
                assert(all.skip(i as int) =~= Seq::<Seq<char>>::empty());
                Query(query_map_exec)
            },
        }
    }

    /// The values given for `key`.
    pub fn get(&self, key: &str) -> (r: Option<&Vec<String>>)
        ensures
            r is Some <==> self@.contains_key(key@),
            r matches Some(v) ==> texts(v@) == self@[key@],
    {
        let r = self.0.get(key);
        match r {
            Some(v) => {
                assert(v.deep_view() =~= texts(v@));
            },
            None => {},
        }
        r
    }
}

/// The route parameters bound by `route` against `request`, paired in order
/// up to the shorter of the two: a route segment `:name` binds `name` to the
/// request's segment at the same place, later bindings replacing earlier ones.
pub open spec fn bind_params(route: Seq<Seq<char>>, request: Seq<Seq<char>>) -> Map<Seq<char>, Seq<char>>
    decreases route.len(),
{
    let n = if route.len() < request.len() {
        route.len() as int
    } else {
        request.len() as int
    };
    if n == 0 {
        Map::empty()
    } else {
        let earlier = bind_params(route.take(n - 1), request.take(n - 1));
        let seg = route[n - 1];
        if seg.len() > 0 && seg[0] == ':' {
            earlier.insert(seg.drop_first(), request[n - 1])
        } else {
            earlier
        }
    }
}

/// Route parameters by name.
pub struct Params(StrMap<String>);

impl View for Params {
    type V = Map<Seq<char>, Seq<char>>;

    closed spec fn view(&self) -> Map<Seq<char>, Seq<char>> {
        self.0@
    }
}

impl Params {
    /// No parameters.
    pub fn default() -> (r: Self)
        ensures
            r@ == Map::<Seq<char>, Seq<char>>::empty(),
    {
        Params(StrMap::new())
    }

    /// The parameters bound by pairing `route_segments` with `req_segments`.
    pub fn new(route_segments: &[String], req_segments: &[String]) -> (r: Self)
        ensures
            r@ == bind_params(texts(route_segments@), texts(req_segments@)),
    {
        let mut params_map: StrMap<String> = StrMap::new();
        let n = if route_segments.len() < req_segments.len() {
            route_segments.len()
        } else {
            req_segments.len()
        };
        let ghost route = texts(route_segments@);
        let ghost req = texts(req_segments@);
        let mut i: usize = 0;
        while i < n
            invariant
                i <= n,
                n <= route_segments@.len(),
                n <= req_segments@.len(),
                n == route_segments@.len() || n == req_segments@.len(),
                route == texts(route_segments@),
                req == texts(req_segments@),
                params_map@ == bind_params(route.take(i as int), req.take(i as int)),
            decreases n - i,
        {
            assert(route[i as int] == route_segments@[i as int]@);
            assert(req[i as int] == req_segments@[i as int]@);
            assert(route.take(i + 1).take(i as int) =~= route.take(i as int));
            assert(req.take(i + 1).take(i as int) =~= req.take(i as int));
            let seg = crate::text::chars_of(route_segments[i].as_str());
            if seg.len() > 0 && seg[0] == ':' {
                let key = crate::text::string_of_range(&seg, 1, seg.len());
                assert(key@ =~= route[i as int].drop_first());
                params_map.insert(key, req_segments[i].clone());
            }
            i = i + 1;
        }
        proof {
            lemma_bind_params_prefix(route, req, n as int);
        }
        Params(params_map)
    }

    /// The value bound to `key`.
    pub fn get(&self, key: &str) -> (r: Option<&str>)
        ensures
            r is Some <==> self@.contains_key(key@),
            r matches Some(v) ==> v@ == self@[key@],
    {
        match self.0.get(key) {
            Some(v) => Some(v.as_str()),
            None => None,
        }
    }

    /// Binds `key` to `value`, replacing any earlier value.
    pub fn insert(&mut self, key: &str, value: &str)
        ensures
            final(self)@ == old(self)@.insert(key@, value@),
    {
        self.0.insert(key.to_owned(), value.to_owned());
    }
}

/// Binding only looks at the first `n` pairs, `n` the shorter length.
proof fn lemma_bind_params_prefix(route: Seq<Seq<char>>, req: Seq<Seq<char>>, n: int)
    requires
        n == (if route.len() < req.len() {
            route.len() as int
        } else {
            req.len() as int
        }),
    ensures
        bind_params(route, req) == bind_params(route.take(n), req.take(n)),
{
    if n > 0 {
        assert(route.take(n).take(n - 1) =~= route.take(n - 1));
        assert(req.take(n).take(n - 1) =~= req.take(n - 1));
    }
}

/// Reading parameters in two runs is reading them in one.
proof fn lemma_query_fold_concat(
    acc: Map<Seq<char>, Seq<Seq<char>>>,
    x: Seq<Seq<char>>,
    y: Seq<Seq<char>>,
)
    ensures
        query_fold(acc, x + y) == query_fold(query_fold(acc, x), y),
    decreases x.len(),
{
    if x.len() > 0 {
        let (k, v) = match split_once(x[0], '=') {
            Some(p) => p,
            None => (x[0], Seq::<char>::empty()),
        };
        let kd = percent_decoded(k);
        let next = acc.insert(kd, values_under(acc, kd).push(percent_decoded(v)));
        assert((x + y)[0] == x[0]);
        assert((x + y).drop_first() =~= x.drop_first() + y);
        lemma_query_fold_concat(next, x.drop_first(), y);
    } else {
        assert(x + y =~= y);
    }
}

/// A query of one parameter `k=v` (no `=` in `k`, no `&` in either) maps the
/// percent-decoded key to the one percent-decoded value, both taken exactly
/// from the text before and after the `=`.
pub proof fn law_query_single_parameter(k: Seq<char>, v: Seq<char>)
    requires
        !k.contains('='),
        !k.contains('&'),
        !v.contains('&'),
    ensures
        query_map(Some(k + seq!['='] + v)) == map![percent_decoded(k) => seq![percent_decoded(v)]],
{
    let p = k + seq!['='] + v;
    assert(!p.contains('&')) by {
        if p.contains('&') {
            let j = choose|j: int| 0 <= j < p.len() && p[j] == '&';
            if j < k.len() {
                assert(k[j] == '&');
            } else if j > k.len() {
                assert(v[j - k.len() - 1] == '&');
            }
        }
    }
    crate::text::lemma_split_absent(p, '&');
    crate::text::lemma_split_once_after(k, '=', v);
    let e = Map::<Seq<char>, Seq<Seq<char>>>::empty();
    let kd = percent_decoded(k);
    let vd = percent_decoded(v);
    assert(values_under(e, kd) =~= Seq::<Seq<char>>::empty());
    assert(seq![p].drop_first() =~= Seq::<Seq<char>>::empty());
    assert(seq![p][0] == p);
    let one = e.insert(kd, values_under(e, kd).push(vd));
    assert(query_fold(e, seq![p]) == query_fold(one, seq![p].drop_first()));
    assert(query_fold(one, Seq::<Seq<char>>::empty()) == one);
    assert(Seq::<Seq<char>>::empty().push(vd) =~= seq![vd]);
    assert(one =~= map![kd => seq![vd]]);
}

/// Appending `&k=v` to a query (no `=` in `k`, no `&` in either) appends the
/// percent-decoded `v`, exactly, to the values of the percent-decoded `k`,
/// after those the query already held, and changes no other key.
pub proof fn law_query_appends_parameter(q: Seq<char>, k: Seq<char>, v: Seq<char>)
    requires
        !k.contains('='),
        !k.contains('&'),
        !v.contains('&'),
    ensures
        query_map(Some(q + seq!['&'] + (k + seq!['='] + v))).contains_key(percent_decoded(k)),
        query_map(Some(q + seq!['&'] + (k + seq!['='] + v)))[percent_decoded(k)] == values_under(
            query_map(Some(q)),
            percent_decoded(k),
        ).push(percent_decoded(v)),
        forall|other: Seq<char>|
            other != percent_decoded(k) ==> (#[trigger] query_map(
                Some(q + seq!['&'] + (k + seq!['='] + v)),
            ).contains_key(other) == query_map(Some(q)).contains_key(other) && query_map(
                Some(q + seq!['&'] + (k + seq!['='] + v)),
            )[other] == query_map(Some(q))[other]),
{
    let p = k + seq!['='] + v;
    assert(!p.contains('&')) by {
        if p.contains('&') {
            let j = choose|j: int| 0 <= j < p.len() && p[j] == '&';
            if j < k.len() {
                assert(k[j] == '&');
            } else if j > k.len() {
                assert(v[j - k.len() - 1] == '&');
            }
        }
    }
    crate::text::lemma_split_absent(p, '&');
    crate::text::lemma_split_concat(q, '&', p);
    crate::text::lemma_split_once_after(k, '=', v);
    let whole = q + seq!['&'] + p;
    assert(split(whole, '&') == split(q, '&') + seq![p]);
    lemma_query_fold_concat(Map::empty(), split(q, '&'), seq![p]);
    let m = query_map(Some(q));
    assert(m == query_fold(Map::empty(), split(q, '&')));
    let kd = percent_decoded(k);
    let vd = percent_decoded(v);
    let after = m.insert(kd, values_under(m, kd).push(vd));
    assert(seq![p].drop_first() =~= Seq::<Seq<char>>::empty());
    assert(seq![p][0] == p);
    assert(query_fold(m, seq![p]) == query_fold(after, seq![p].drop_first()));
    assert(query_fold(after, Seq::<Seq<char>>::empty()) == after);
    assert(query_map(Some(whole)) == after);
}

/// Adding `/s` to a path (no `/` in `s`) adds the segment `s`, exactly as
/// written, after the path's segments, or nothing when `s` is empty.
pub proof fn law_path_segment_appended(path: Seq<char>, seg: Seq<char>)
    requires
        !seg.contains('/'),
    ensures
        path_segments(path + seq!['/'] + seg) == if seg.len() > 0 {
            path_segments(path).push(seg)
        } else {
            path_segments(path)
        },
{
    crate::text::lemma_split_concat(path, '/', seg);
    crate::text::lemma_split_absent(seg, '/');
    let pieces = split(path, '/') + seq![seg];
    assert(pieces.drop_last() =~= split(path, '/'));
    assert(pieces.last() == seg);
}

/// Adding a route segment `:name` paired with a request segment `x` (after
/// lists of equal length) binds `name` to `x` exactly, over the earlier
/// bindings; a route segment that does not start with `:` binds nothing.
pub proof fn law_params_bind_appended(
    route: Seq<Seq<char>>,
    request: Seq<Seq<char>>,
    seg: Seq<char>,
    x: Seq<char>,
)
    requires
        route.len() == request.len(),
    ensures
        bind_params(route.push(seg), request.push(x)) == if seg.len() > 0 && seg[0] == ':' {
            bind_params(route, request).insert(seg.drop_first(), x)
        } else {
            bind_params(route, request)
        },
{
    let r2 = route.push(seg);
    let q2 = request.push(x);
    let n = r2.len() as int;
    assert(r2.take(n - 1) =~= route);
    assert(q2.take(n - 1) =~= request);
    assert(r2[n - 1] == seg);
    assert(q2[n - 1] == x);
}

} // verus!
