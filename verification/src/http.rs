//! The HTTP front of a node.
//!
//! - `POST /locks/{lock}/acquire`
//! - `POST /locks/{lock}/release` with `{"holder":"..."}` or `X-LMX-Holder: ...`
//! - `POST /locks/acquire` with `{"lock":"..."}`
//! - `POST /locks/release` with `{"holder":"..."}`
//! - `POST /semaphores/{name}/acquire` with `{"limit":10}`
//! - `POST /semaphores/acquire` with `{"name":"api","limit":10}`
//! - `POST /semaphores/release` with `{"holder":"..."}`
//! - `POST /rwlocks/{name}/read-acquire` with `{"limit":10}`
//! - `POST /rwlocks/{name}/write-acquire` with `{"limit":10}`
//! - `POST /rwlocks/acquire` with `{"name":"doc","mode":"read","limit":10}`
//! - `POST /rwlocks/release` with `{"holder":"..."}`
//! - `GET /healthz`
use vstd::prelude::*;
use vstd::utf8::*;

use crate::client_api::{opt_view, result_view, Answer, AnswerView, ClientError};
use crate::frontend::{
    ask_rw, ask_semaphore, error_json, error_object, find_limit, find_mode, find_name, find_text,
    limit_field, mode_field, name_field, outcome_json, outcome_object, refusal, refuse,
    request_or_error, rw_request, semaphore_request, text_field, Request, RequestView,
    MAX_HTTP_BODY, MAX_HTTP_HEADERS,
};
use crate::json::{
    field_views, json_text, json_value, parse_json, push_field, render_json, Json, JsonView,
};
use crate::lock_map::{LockMap, Table};
use crate::text::{
    char_views, chars_are, chars_of, decimal, decimal_chars, find_char, hex_val, hex_value, lower,
    parse_number, parse_unsigned, push_chars, push_str, split, split_chars, split_once,
    split_words, str_eq, string_from_utf8, string_of, strip, strip_chars, sub_chars, to_lower,
    trim, trim_chars, words,
};
use crate::types::LockId;

verus! {

// ---- percent encoding and queries -------------------------------------------------------------
/// Bytes before what follows, if anything follows.
pub open spec fn before(front: Seq<u8>, rest: Option<Seq<u8>>) -> Option<Seq<u8>> {
    match rest {
        Some(r) => Some(front + r),
        None => None,
    }
}

/// The bytes that percent-encoded text (as bytes) stands for: `%` and two
/// hexadecimal digits stand for a byte, `+` stands for a space.
pub open spec fn percent_bytes(s: Seq<u8>) -> Option<Seq<u8>>
    decreases s.len(),
{
    if s.len() == 0 {
        Some(Seq::empty())
    } else if s[0] == 37 {
        if s.len() < 3 {
            None
        } else {
            match (hex_val(s[1]), hex_val(s[2])) {
                (Some(hi), Some(lo)) => before(
                    seq![(hi * 16 + lo) as u8],
                    percent_bytes(s.skip(3)),
                ),
                _ => None,
            }
        }
    } else if s[0] == 43 {
        before(seq![32u8], percent_bytes(s.skip(1)))
    } else {
        before(seq![s[0]], percent_bytes(s.skip(1)))
    }
}

/// The text that percent-encoded text stands for.
pub open spec fn percent_decoded(s: Seq<char>) -> Option<Seq<char>> {
    match percent_bytes(encode_utf8(s)) {
        Some(b) => if valid_utf8(b) {
            Some(decode_utf8(b))
        } else {
            None
        },
        None => None,
    }
}

/// The text that percent-encoded text stands for.
pub fn percent_decode(s: &str) -> (r: Option<String>)
    ensures
        opt_view(r) == percent_decoded(s@),
{
    let bytes = s.as_bytes();
    let mut out: Vec<u8> = Vec::new();
    let mut i: usize = 0;
    let ghost whole = percent_bytes(bytes@);
    assert(bytes@.skip(0) =~= bytes@);
    assert(before(out@, whole) == whole) by {
        if let Some(r) = whole {
            assert(Seq::<u8>::empty() + r =~= r);
        }
    }
    while i < bytes.len()
        invariant
            bytes@ == encode_utf8(s@),
            whole == percent_bytes(bytes@),
            i <= bytes@.len(),
            before(out@, percent_bytes(bytes@.skip(i as int))) == whole,
        decreases bytes@.len() - i,
    {
        let b = bytes[i];
        let ghost rest = bytes@.skip(i as int);
        let ghost done = out@;
        if b == 37 {
            if bytes.len() - i < 3 {
                return None;
            }
            match (hex_value(bytes[i + 1]), hex_value(bytes[i + 2])) {
                (Some(hi), Some(lo)) => {
                    out.push(hi * 16 + lo);
                    proof {
                        assert(rest.skip(3) =~= bytes@.skip(i + 3));
                        if let Some(r) = percent_bytes(rest.skip(3)) {
                            assert(done + (seq![(hi * 16 + lo) as u8] + r) =~= out@ + r);
                        }
                    }
                    i += 3;
                },
                _ => {
                    return None;
                },
            }
        } else {
            let c: u8 = if b == 43 {
                32
            } else {
                b
            };
            out.push(c);
            proof {
                assert(rest.skip(1) =~= bytes@.skip(i + 1));
                if let Some(r) = percent_bytes(rest.skip(1)) {
                    assert(done + (seq![c] + r) =~= out@ + r);
                }
            }
            i += 1;
        }
    }
    proof {
        assert(bytes@.skip(i as int) =~= Seq::empty());
        assert(out@ + Seq::<u8>::empty() =~= out@);
    }
    string_from_utf8(out)
}

/// The name and the value of a pair of a query.
pub open spec fn query_pair(pair: Seq<char>) -> (Seq<char>, Seq<char>) {
    match split_once(pair, '=') {
        Some(p) => p,
        None => (pair, Seq::empty()),
    }
}

/// The value of the first of `pairs` with the given name.
pub open spec fn first_value(pairs: Seq<Seq<char>>, key: Seq<char>) -> Option<Seq<char>>
    decreases pairs.len(),
{
    if pairs.len() == 0 {
        None
    } else if pairs[0].len() > 0 && percent_decoded(query_pair(pairs[0]).0) == Some(key) {
        Some(query_pair(pairs[0]).1)
    } else {
        first_value(pairs.skip(1), key)
    }
}

/// The value of a parameter of a query, as it stands there.
pub open spec fn query_value(query: Seq<char>, key: Seq<char>) -> Option<Seq<char>> {
    first_value(split(query, '&'), key)
}

/// The name and the value of a pair of a query.
fn split_pair(pair: &Vec<char>) -> (r: (Vec<char>, Vec<char>))
    ensures
        (r.0@, r.1@) == query_pair(pair@),
{
    let i = find_char(pair, '=');
    if i < pair.len() {
        let name = sub_chars(pair, 0, i);
        let value = sub_chars(pair, i + 1, pair.len());
        assert(name@ =~= pair@.take(i as int));
        assert(value@ =~= pair@.skip(i + 1));
        (name, value)
    } else {
        let name = sub_chars(pair, 0, pair.len());
        assert(name@ =~= pair@);
        let value: Vec<char> = Vec::new();
        assert(value@ =~= Seq::empty());
        (name, value)
    }
}

/// The value of a parameter of a query, as it stands there.
pub fn query_param(query: &str, key: &str) -> (r: Option<String>)
    ensures
        opt_view(r) == query_value(query@, key@),
{
    let pairs = split_chars(&chars_of(query), '&');
    let ghost views = char_views(pairs@);
    let mut i: usize = 0;
    assert(views.skip(0) =~= views);
    while i < pairs.len()
        invariant
            views == char_views(pairs@),
            views == split(query@, '&'),
            i <= pairs@.len(),
            first_value(views.skip(i as int), key@) == query_value(query@, key@),
        decreases pairs@.len() - i,
    {
        proof {
            assert(views.skip(i as int)[0] == pairs@[i as int]@);
            assert(views.skip(i as int).skip(1) =~= views.skip(i + 1));
        }
        if pairs[i].len() > 0 {
            let (name, value) = split_pair(&pairs[i]);
            match percent_decode(string_of(&name).as_str()) {
                Some(n) => {
                    if str_eq(n.as_str(), key) {
                        return Some(string_of(&value));
                    }
                },
                None => {},
            }
        }
        i += 1;
    }
    assert(views.skip(i as int) =~= Seq::empty());
    None
}

/// The holder token of a request: from the body, from the header
/// `X-LMX-Holder`, or from the query.
pub open spec fn request_holder(
    query: Seq<char>,
    headers: Table<Seq<char>>,
    body: JsonView,
) -> Option<Seq<char>> {
    match text_field(body, "holder"@) {
        Some(h) => Some(h),
        None => match headers.get("x-lmx-holder"@) {
            Some(h) => Some(h),
            None => match query_value(query, "holder"@) {
                Some(v) => percent_decoded(v),
                None => None,
            },
        },
    }
}

/// The holder token of a request.
pub fn holder_from_request(query: &str, headers: &LockMap<String>, body: &Json) -> (r: Option<
    String,
>)
    requires
        headers.wf(),
    ensures
        opt_view(r) == request_holder(query@, headers@, body@),
{
    match find_text(body, "holder") {
        Some(h) => Some(h),
        None => match headers.find("x-lmx-holder") {
            Some(i) => Some(headers.value(i).clone()),
            None => match query_param(query, "holder") {
                Some(v) => percent_decode(v.as_str()),
                None => None,
            },
        },
    }
}

// ---- routes ---------------------------------------------------------------------------------------
/// What becomes of an HTTP request.
#[derive(Debug)]
pub enum Routed {
    /// Answer at once with this status and value.
    Reply(u16, Json),
    /// Carry out a request and answer with [`http_outcome`].
    Call(Request),
}

/// The content of a [`Routed`].
pub enum RoutedView {
    Reply(u16, JsonView),
    Call(RequestView),
}

impl View for Routed {
    type V = RoutedView;

    open spec fn view(&self) -> RoutedView {
        match *self {
            Routed::Reply(status, v) => RoutedView::Reply(status, v@),
            Routed::Call(r) => RoutedView::Call(r@),
        }
    }
}

/// The status and the value for the outcome of a request.
pub open spec fn outcome_reply(outcome: Result<AnswerView, ClientError>) -> (u16, JsonView) {
    (
        match outcome {
            Ok(_) => 200,
            Err(e) => e.http_status(),
        },
        outcome_json(outcome),
    )
}

/// The status and the value for the outcome of a request.
pub fn http_outcome(outcome: &Result<Answer, ClientError>) -> (r: (u16, Json))
    ensures
        (r.0, r.1@) == outcome_reply(result_view(*outcome)),
{
    let status: u16 = match outcome {
        Ok(_) => 200,
        Err(e) => e.status(),
    };
    (status, outcome_object(outcome))
}

/// The value of a node in good health.
pub open spec fn healthy() -> JsonView {
    JsonView::Object(seq![("ok"@, JsonView::Bool(true))])
}

/// A request, or the answer for the error.
pub open spec fn call_or_error(r: Result<RequestView, ClientError>) -> RoutedView {
    match r {
        Ok(request) => RoutedView::Call(request),
        Err(e) => RoutedView::Reply(e.http_status(), error_json(e)),
    }
}

/// The answer to a release without a holder token.
pub open spec fn no_holder() -> RoutedView {
    RoutedView::Reply(400, refusal("missing_holder"@, "release requires a holder token"@))
}

/// A release of whatever the token holds, of a lock by name, or of an RW lock
/// by name.
pub open spec fn release_route(
    lock: Option<Seq<char>>,
    rw: bool,
    holder: Option<Seq<char>>,
) -> RoutedView {
    match (holder, lock) {
        (None, _) => no_holder(),
        (Some(holder), None) => RoutedView::Call(RequestView::Release { holder }),
        (Some(holder), Some(name)) => if rw {
            RoutedView::Call(RequestView::ReleaseRw { name, holder })
        } else {
            RoutedView::Call(RequestView::ReleaseLock { lock: name, holder })
        },
    }
}

/// The name that a segment of a path stands for; empty if it stands for none.
pub open spec fn segment_name(segment: Seq<char>) -> Seq<char> {
    match percent_decoded(segment) {
        Some(s) => s,
        None => Seq::empty(),
    }
}

/// The answer to an unknown path.
pub open spec fn not_found() -> RoutedView {
    RoutedView::Reply(404, refusal("not_found"@, "unknown endpoint"@))
}

/// What a path with a name in it asks for.
pub open spec fn named_route(
    segments: Seq<Seq<char>>,
    query: Seq<char>,
    headers: Table<Seq<char>>,
    body: JsonView,
) -> RoutedView {
    if segments.len() != 3 {
        not_found()
    } else {
        let kind = segments[0];
        let name = segment_name(segments[1]);
        let action = segments[2];
        let holder = request_holder(query, headers, body);
        if kind == "locks"@ && action == "acquire"@ {
            RoutedView::Call(RequestView::Acquire { lock: name })
        } else if kind == "locks"@ && action == "release"@ {
            release_route(Some(name), false, holder)
        } else if kind == "semaphores"@ && action == "acquire"@ {
            call_or_error(semaphore_request(name, limit_field(body)))
        } else if kind == "semaphores"@ && action == "release"@ {
            release_route(None, false, holder)
        } else if kind == "rwlocks"@ && (action == "read-acquire"@ || action == "read"@) {
            call_or_error(rw_request("read"@, name, limit_field(body)))
        } else if kind == "rwlocks"@ && (action == "write-acquire"@ || action == "write"@) {
            call_or_error(rw_request("write"@, name, limit_field(body)))
        } else if kind == "rwlocks"@ && action == "release"@ {
            release_route(Some(name), true, holder)
        } else {
            not_found()
        }
    }
}

/// What an HTTP request asks for.
pub open spec fn route(
    method: Seq<char>,
    path: Seq<char>,
    query: Seq<char>,
    headers: Table<Seq<char>>,
    body: JsonView,
) -> RoutedView {
    let post = method == "POST"@;
    let holder = request_holder(query, headers, body);
    if method == "GET"@ && path == "/healthz"@ {
        RoutedView::Reply(200, healthy())
    } else if !post && method != "DELETE"@ {
        RoutedView::Reply(405, refusal("method_not_allowed"@, "use POST"@))
    } else if post && path == "/locks/acquire"@ {
        RoutedView::Call(
            RequestView::Acquire {
                lock: match text_field(body, "lock"@) {
                    Some(s) => s,
                    None => Seq::empty(),
                },
            },
        )
    } else if path == "/locks/release"@ {
        release_route(None, false, holder)
    } else if post && path == "/semaphores/acquire"@ {
        call_or_error(semaphore_request(name_field(body, "semaphore"@), limit_field(body)))
    } else if path == "/semaphores/release"@ {
        release_route(None, false, holder)
    } else if post && path == "/rwlocks/acquire"@ {
        call_or_error(rw_request(mode_field(body), name_field(body, "rwlock"@), limit_field(body)))
    } else if path == "/rwlocks/release"@ {
        release_route(None, true, holder)
    } else {
        named_route(split(strip(path, '/'), '/'), query, headers, body)
    }
}

/// A request, or the answer for the error.
fn routed(r: Result<Request, ClientError>) -> (x: Routed)
    ensures
        x@ == call_or_error(request_or_error(r)),
{
    match r {
        Ok(request) => Routed::Call(request),
        Err(e) => Routed::Reply(e.status(), error_object(e)),
    }
}

/// A release.
fn routed_release(lock: Option<LockId>, rw: bool, holder: Option<String>) -> (x: Routed)
    ensures
        x@ == release_route(opt_view(lock), rw, opt_view(holder)),
{
    match holder {
        None => Routed::Reply(
            400,
            refuse("missing_holder", "release requires a holder token"),
        ),
        Some(holder) => match lock {
            None => Routed::Call(Request::Release { holder }),
            Some(name) => {
                if rw {
                    Routed::Call(Request::ReleaseRw { name, holder })
                } else {
                    Routed::Call(Request::ReleaseLock { lock: name, holder })
                }
            },
        },
    }
}

/// The name that a segment of a path stands for.
fn name_of_segment(segment: &Vec<char>) -> (s: String)
    ensures
        s@ == segment_name(segment@),
{
    match percent_decode(string_of(segment).as_str()) {
        Some(s) => s,
        None => String::new(),
    }
}

/// What a path with a name in it asks for.
fn route_named(
    segments: &Vec<Vec<char>>,
    query: &str,
    headers: &LockMap<String>,
    body: &Json,
) -> (x: Routed)
    requires
        headers.wf(),
    ensures
        x@ == named_route(char_views(segments@), query@, headers@, body@),
{
    if segments.len() != 3 {
        return Routed::Reply(404, refuse("not_found", "unknown endpoint"));
    }
    proof {
        let views = char_views(segments@);
        assert(views[0] == segments@[0]@);
        assert(views[1] == segments@[1]@);
        assert(views[2] == segments@[2]@);
    }
    let kind = &segments[0];
    let action = &segments[2];
    let name = name_of_segment(&segments[1]);
    if chars_are(kind, "locks") && chars_are(action, "acquire") {
        Routed::Call(Request::Acquire { lock: name })
    } else if chars_are(kind, "locks") && chars_are(action, "release") {
        routed_release(Some(name), false, holder_from_request(query, headers, body))
    } else if chars_are(kind, "semaphores") && chars_are(action, "acquire") {
        routed(ask_semaphore(name, find_limit(body)))
    } else if chars_are(kind, "semaphores") && chars_are(action, "release") {
        routed_release(None, false, holder_from_request(query, headers, body))
    } else if chars_are(kind, "rwlocks") && (chars_are(action, "read-acquire") || chars_are(
        action,
        "read",
    )) {
        routed(ask_rw("read", name, find_limit(body)))
    } else if chars_are(kind, "rwlocks") && (chars_are(action, "write-acquire") || chars_are(
        action,
        "write",
    )) {
        routed(ask_rw("write", name, find_limit(body)))
    } else if chars_are(kind, "rwlocks") && chars_are(action, "release") {
        routed_release(Some(name), true, holder_from_request(query, headers, body))
    } else {
        Routed::Reply(404, refuse("not_found", "unknown endpoint"))
    }
}

/// What an HTTP request asks for.
pub fn route_http(
    method: &str,
    path: &str,
    query: &str,
    headers: &LockMap<String>,
    body: &Json,
) -> (x: Routed)
    requires
        headers.wf(),
    ensures
        x@ == route(method@, path@, query@, headers@, body@),
{
    let post = str_eq(method, "POST");
    if str_eq(method, "GET") && str_eq(path, "/healthz") {
        let mut fields: Vec<(String, Json)> = Vec::new();
        assert(field_views(fields@) =~= Seq::empty());
        push_field(&mut fields, "ok", Json::truth(true));
        assert(field_views(fields@) =~= seq![("ok"@, JsonView::Bool(true))]);
        return Routed::Reply(200, Json::object(fields));
    }
    if !post && !str_eq(method, "DELETE") {
        return Routed::Reply(405, refuse("method_not_allowed", "use POST"));
    }
    if post && str_eq(path, "/locks/acquire") {
        let lock = match find_text(body, "lock") {
            Some(s) => s,
            None => String::new(),
        };
        return Routed::Call(Request::Acquire { lock });
    }
    if str_eq(path, "/locks/release") {
        return routed_release(None, false, holder_from_request(query, headers, body));
    }
    if post && str_eq(path, "/semaphores/acquire") {
        return routed(ask_semaphore(find_name(body, "semaphore"), find_limit(body)));
    }
    if str_eq(path, "/semaphores/release") {
        return routed_release(None, false, holder_from_request(query, headers, body));
    }
    if post && str_eq(path, "/rwlocks/acquire") {
        return routed(
            ask_rw(find_mode(body).as_str(), find_name(body, "rwlock"), find_limit(body)),
        );
    }
    if str_eq(path, "/rwlocks/release") {
        return routed_release(None, true, holder_from_request(query, headers, body));
    }
    let segments = split_chars(&strip_chars(&chars_of(path), '/'), '/');
    route_named(&segments, query, headers, body)
}

// ---- requests and responses as text --------------------------------------------------------------
/// The head of a request, as far as it has been read.
#[verifier::ext_equal]
pub struct HeadView {
    pub request_line: Option<Seq<char>>,
    pub headers: Table<Seq<char>>,
}

/// What is to be read next.
#[derive(Debug)]
pub enum HttpNext {
    /// One more line.
    Line,
    /// A body of this many bytes.
    Body(usize),
    /// Nothing: answer with this status and value.
    Reply(u16, Json),
}

/// The content of an [`HttpNext`].
pub enum NextView {
    Line,
    Body(usize),
    Reply(u16, JsonView),
}

impl View for HttpNext {
    type V = NextView;

    open spec fn view(&self) -> NextView {
        match *self {
            HttpNext::Line => NextView::Line,
            HttpNext::Body(n) => NextView::Body(n),
            HttpNext::Reply(status, v) => NextView::Reply(status, v@),
        }
    }
}

/// An object that says no, with a code.
pub open spec fn bare_refusal(code: Seq<char>) -> JsonView {
    JsonView::Object(seq![("ok"@, JsonView::Bool(false)), ("error"@, JsonView::Str(code))])
}

/// A line without its end.
pub open spec fn without_end(line: Seq<char>) -> Seq<char>
    decreases line.len(),
{
    if line.len() > 0 && (line.last() == '\r' || line.last() == '\n') {
        without_end(line.drop_last())
    } else {
        line
    }
}

/// How long the body is, by the header `Content-Length`; zero if there is none
/// or it is no number.
pub open spec fn body_len(headers: Table<Seq<char>>) -> nat {
    match headers.get("content-length"@) {
        Some(v) => match parse_number(v, usize::MAX as nat) {
            Some(n) => n,
            None => 0,
        },
        None => 0,
    }
}

impl HeadView {
    /// Nothing has been read.
    pub open spec fn fresh() -> HeadView {
        HeadView { request_line: None, headers: Table::empty() }
    }

    /// One more header, by its line; a line without a colon is none.
    pub open spec fn with_header(self, line: Seq<char>) -> HeadView {
        match split_once(line, ':') {
            Some((name, value)) => HeadView {
                headers: self.headers.put(lower(trim(name)), trim(value)),
                ..self
            },
            None => self,
        }
    }

    /// The head after one more line, and what is to be read next.
    pub open spec fn line(self, line: Seq<char>) -> (HeadView, NextView) {
        if self.request_line is None {
            (HeadView { request_line: Some(line), ..self }, NextView::Line)
        } else if without_end(line).len() == 0 {
            if body_len(self.headers) > MAX_HTTP_BODY {
                (self, NextView::Reply(413, bare_refusal("body_too_large"@)))
            } else {
                (self, NextView::Body(body_len(self.headers) as usize))
            }
        } else {
            let next = self.with_header(without_end(line));
            if next.headers.keys.len() > MAX_HTTP_HEADERS {
                (next, NextView::Reply(431, bare_refusal("too_many_headers"@)))
            } else {
                (next, NextView::Line)
            }
        }
    }

    /// The method, the path and the query of the request.
    pub open spec fn target(self) -> (Seq<char>, Seq<char>, Seq<char>) {
        let w = match self.request_line {
            Some(line) => words(line),
            None => Seq::empty(),
        };
        let method = if w.len() > 0 {
            w[0]
        } else {
            Seq::empty()
        };
        let target = if w.len() > 1 {
            w[1]
        } else {
            Seq::empty()
        };
        match split_once(target, '?') {
            Some((path, query)) => (method, path, query),
            None => (method, target, Seq::empty()),
        }
    }

    /// What the request asks for, with the value of its body; without one if
    /// the body is malformed.
    pub open spec fn routed(self, body: Option<JsonView>) -> RoutedView {
        let (method, path, query) = self.target();
        match body {
            Some(v) => route(method, path, query, self.headers, v),
            None => RoutedView::Reply(400, refusal("bad_json"@, "malformed JSON body"@)),
        }
    }
}

/// The value of a body: null if there is none, nothing if it is malformed.
pub open spec fn body_value(body: Seq<u8>) -> Option<JsonView> {
    if body.len() == 0 {
        Some(JsonView::Null)
    } else if valid_utf8(body) {
        json_value(decode_utf8(body))
    } else {
        None
    }
}

/// A line without its end.
fn cut_end(line: &str) -> (v: Vec<char>)
    ensures
        v@ == without_end(line@),
{
    let mut v = chars_of(line);
    while v.len() > 0 && (v[v.len() - 1] == '\r' || v[v.len() - 1] == '\n')
        invariant
            without_end(v@) == without_end(line@),
        decreases v@.len(),
    {
        let ghost before = v@;
        let _ = v.pop();
        assert(v@ =~= before.drop_last());
    }
    v
}

/// An object that says no, with a code.
fn bare_refuse(code: &str) -> (v: Json)
    ensures
        v@ == bare_refusal(code@),
{
    let mut fields: Vec<(String, Json)> = Vec::new();
    assert(field_views(fields@) =~= Seq::empty());
    push_field(&mut fields, "ok", Json::truth(false));
    push_field(&mut fields, "error", Json::text(code.to_owned()));
    assert(field_views(fields@) =~= bare_refusal(code@)->Object_0);
    Json::object(fields)
}

/// Reads the head of a request line by line, and then its body.
pub struct HttpHead {
    request_line: Option<String>,
    headers: LockMap<String>,
}

impl View for HttpHead {
    type V = HeadView;

    closed spec fn view(&self) -> HeadView {
        HeadView { request_line: opt_view(self.request_line), headers: self.headers@ }
    }
}

impl HttpHead {
    /// The table of headers is in order.
    pub closed spec fn wf(&self) -> bool {
        self.headers.wf()
    }

    /// Nothing has been read.
    pub fn new() -> (h: HttpHead)
        ensures
            h.wf(),
            h@ == HeadView::fresh(),
    {
        HttpHead { request_line: None, headers: LockMap::new() }
    }

    /// Read one more line.
    pub fn line(&mut self, line: &str) -> (next: HttpNext)
        requires
            old(self).wf(),
        ensures
            final(self).wf(),
            (final(self)@, next@) == old(self)@.line(line@),
    {
        if self.request_line.is_none() {
            self.request_line = Some(line.to_owned());
            return HttpNext::Line;
        }
        let text = cut_end(line);
        if text.len() == 0 {
            let n = self.content_length();
            if n > MAX_HTTP_BODY {
                return HttpNext::Reply(413, bare_refuse("body_too_large"));
            }
            return HttpNext::Body(n);
        }
        let i = find_char(&text, ':');
        if i < text.len() {
            let name = sub_chars(&text, 0, i);
            let value = sub_chars(&text, i + 1, text.len());
            assert(name@ =~= text@.take(i as int));
            assert(value@ =~= text@.skip(i + 1));
            let name = to_lower(string_of(&trim_chars(&name)).as_str());
            self.headers.set(string_of(&name), string_of(&trim_chars(&value)));
        }
        assert(self@ =~= old(self)@.with_header(text@));
        if self.headers.len() > MAX_HTTP_HEADERS {
            HttpNext::Reply(431, bare_refuse("too_many_headers"))
        } else {
            HttpNext::Line
        }
    }

    /// How long the body is.
    fn content_length(&self) -> (n: usize)
        requires
            self.wf(),
        ensures
            n == body_len(self@.headers),
    {
        match self.headers.find("content-length") {
            Some(i) => {
                match parse_unsigned(
                    &chars_of(self.headers.value(i).as_str()),
                    usize::MAX as u64,
                ) {
                    Some(n) => n as usize,
                    None => 0,
                }
            },
            None => 0,
        }
    }

    /// What the request asks for, by the value of its body.
    pub fn route(&self, body: Option<&Json>) -> (x: Routed)
        requires
            self.wf(),
        ensures
            x@ == self@.routed(
                match body {
                    Some(v) => Some(v@),
                    None => None,
                },
            ),
    {
        let v = match body {
            Some(v) => v,
            None => {
                return Routed::Reply(400, refuse("bad_json", "malformed JSON body"));
            },
        };
        let line: Vec<char> = match &self.request_line {
            Some(s) => chars_of(s.as_str()),
            None => Vec::new(),
        };
        proof {
            if self.request_line is None {
                assert(line@ =~= Seq::empty());
                assert(words(line@) =~= Seq::empty());
            }
        }
        let w = split_words(&line);
        let ghost views = char_views(w@);
        let empty: Vec<char> = Vec::new();
        assert(empty@ =~= Seq::empty());
        let method: &Vec<char> = if w.len() > 0 {
            assert(views[0] == w@[0]@);
            &w[0]
        } else {
            &empty
        };
        let target: &Vec<char> = if w.len() > 1 {
            assert(views[1] == w@[1]@);
            &w[1]
        } else {
            &empty
        };
        let i = find_char(target, '?');
        let path = sub_chars(target, 0, i);
        assert(path@ =~= target@.take(i as int));
        let query = if i < target.len() {
            let q = sub_chars(target, i + 1, target.len());
            assert(q@ =~= target@.skip(i + 1));
            q
        } else {
            assert(path@ =~= target@);
            let q: Vec<char> = Vec::new();
            assert(q@ =~= Seq::empty());
            q
        };
        route_http(
            string_of(method).as_str(),
            string_of(&path).as_str(),
            string_of(&query).as_str(),
            &self.headers,
            v,
        )
    }

    /// What the request asks for, with the bytes of its body.
    pub fn finish(&self, body: Vec<u8>) -> (x: Routed)
        requires
            self.wf(),
        ensures
            x@ == self@.routed(body_value(body@)),
    {
        if body.len() == 0 {
            let null = Json::Null;
            return self.route(Some(&null));
        }
        match string_from_utf8(body) {
            None => self.route(None),
            Some(text) => match parse_json(text.as_str()) {
                None => self.route(None),
                Some(v) => self.route(Some(&v)),
            },
        }
    }
}

/// The words for a status.
pub open spec fn reason(status: u16) -> Seq<char> {
    if status == 200 {
        "OK"@
    } else if status == 400 {
        "Bad Request"@
    } else if status == 404 {
        "Not Found"@
    } else if status == 405 {
        "Method Not Allowed"@
    } else if status == 409 {
        "Conflict"@
    } else if status == 413 {
        "Payload Too Large"@
    } else if status == 503 {
        "Service Unavailable"@
    } else {
        "Error"@
    }
}

/// The response with a status and a body.
pub open spec fn response(status: u16, body: Seq<char>) -> Seq<char> {
    "HTTP/1.1 "@ + decimal(status as nat) + " "@ + reason(status)
        + "\r\nContent-Type: application/json\r\nContent-Length: "@ + decimal(
        encode_utf8(body).len(),
    ) + "\r\nConnection: close\r\n\r\n"@ + body
}

/// The words for a status.
fn reason_phrase(status: u16) -> (s: &'static str)
    ensures
        s@ == reason(status),
{
    if status == 200 {
        "OK"
    } else if status == 400 {
        "Bad Request"
    } else if status == 404 {
        "Not Found"
    } else if status == 405 {
        "Method Not Allowed"
    } else if status == 409 {
        "Conflict"
    } else if status == 413 {
        "Payload Too Large"
    } else if status == 503 {
        "Service Unavailable"
    } else {
        "Error"
    }
}

/// The response with a status and a body.
pub fn response_text(status: u16, body: &str) -> (s: String)
    ensures
        s@ == response(status, body@),
{
    let mut v = chars_of("HTTP/1.1 ");
    push_chars(&mut v, &decimal_chars(status as u64));
    push_str(&mut v, " ");
    push_str(&mut v, reason_phrase(status));
    push_str(&mut v, "\r\nContent-Type: application/json\r\nContent-Length: ");
    push_chars(&mut v, &decimal_chars(body.as_bytes().len() as u64));
    push_str(&mut v, "\r\nConnection: close\r\n\r\n");
    push_str(&mut v, body);
    string_of(&v)
}

/// The response with a status and a value.
pub fn http_response(status: u16, value: &Json) -> (s: String)
    ensures
        s@ == response(status, json_text(value@)),
{
    let body = render_json(value);
    response_text(status, body.as_str())
}

} // verus!
