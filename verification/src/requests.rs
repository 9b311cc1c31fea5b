//! What clients may write, and what it means: over HTTP, in lines of JSON and in lines of
//! text; and what they read in answer.
use vstd::prelude::*;

use vstd::utf8::*;

use crate::client_api::{
    AcquireView, AnswerView, ClientError, LockClientView, ReleaseView, RwAcquireView, RwMode,
    SemaphoreAcquireView,
};
use crate::frontend::{
    answer_json, banner_text, error_json, error_text, first_word, json_request, line_len,
    object_request, outcome_json, refusal, started, text_reply, text_request, usage_text,
    RequestView, CLIENT_IO_TIMEOUT_MS, MAX_CLIENT_CONNECTIONS, MAX_HTTP_BODY, MAX_HTTP_HEADERS,
    MAX_LINE,
};
use crate::http::{
    body_value, outcome_reply, percent_bytes, percent_decoded, reason, request_holder, response,
    route, HeadView, NextView, RoutedView,
};
use crate::json::{json_value, lemma_field_index, JsonView};
use crate::lock_map::Table;
use crate::text::{
    ascii_bytes, decimal, lemma_ascii_bytes, lower, parse_number, split, strip, trim, white,
};
use crate::wording::{
    lacks, law_first_word, law_splitting, law_splitting_once, law_stripping, law_trimming,
    law_words, solid, tight,
};

verus! {

// ---- objects --------------------------------------------------------------------------------------
/// The `i`-th field is the one with that name, and has that value.
pub open spec fn said_at(body: JsonView, name: Seq<char>, v: JsonView, i: int) -> bool {
    &&& body matches JsonView::Object(fields) && 0 <= i < fields.len() && fields[i] == (name, v)
        && forall|j: int| 0 <= j < fields.len() && j != i ==> (#[trigger] fields[j]).0 != name
}

/// The object has one field with that name, and it has that value.
pub open spec fn says(body: JsonView, name: Seq<char>, v: JsonView) -> bool {
    exists|i: int| #[trigger] said_at(body, name, v, i)
}

/// The value is an object without such a field, or no object at all.
pub open spec fn silent(body: JsonView, name: Seq<char>) -> bool {
    body matches JsonView::Object(fields) ==> forall|j: int|
        0 <= j < fields.len() ==> (#[trigger] fields[j]).0 != name
}

/// **Fields are found by name**, wherever they stand.
pub proof fn law_fields_are_found(body: JsonView, name: Seq<char>, v: JsonView)
    ensures
        says(body, name, v) ==> body.get(name) == Some(v),
        silent(body, name) ==> body.get(name) is None,
{
    if let JsonView::Object(fields) = body {
        if says(body, name, v) {
            let i = choose|i: int| #[trigger] said_at(body, name, v, i);
            lemma_field_index(fields, name, i);
        }
        if silent(body, name) {
            lemma_field_index(fields, name, fields.len() as int);
        }
    }
}

/// The object has a field with that name, but no text in it.
pub open spec fn says_no_text(body: JsonView, name: Seq<char>) -> bool {
    exists|v: JsonView| #[trigger] says(body, name, v) && !(v is Str)
}

/// The object has no text under that name.
pub open spec fn wordless(body: JsonView, name: Seq<char>) -> bool {
    silent(body, name) || says_no_text(body, name)
}

/// The object names the resource: in the field `name` or, without that, in the other one.
/// Where there is no text, the name is empty.
pub open spec fn names(body: JsonView, other: Seq<char>, name: Seq<char>) -> bool {
    ||| says(body, "name"@, JsonView::Str(name))
    ||| silent(body, "name"@) && says(body, other, JsonView::Str(name))
    ||| says_no_text(body, "name"@) && name == Seq::<char>::empty()
    ||| silent(body, "name"@) && wordless(body, other) && name == Seq::<char>::empty()
}

/// The object gives the limit; without a number it is zero.
pub open spec fn limits(body: JsonView, limit: u64) -> bool {
    ||| says(body, "limit"@, JsonView::Number(limit))
    ||| silent(body, "limit"@) && limit == 0
    ||| (exists|v: JsonView| #[trigger] says(body, "limit"@, v) && !(v is Number)) && limit == 0
}

/// Where there is no text, none is found.
proof fn lemma_wordless(body: JsonView, name: Seq<char>)
    ensures
        wordless(body, name) ==> crate::frontend::text_field(body, name) is None,
        says_no_text(body, name) ==> (body.get(name) matches Some(v) && !(v is Str)),
{
    law_fields_are_found(body, name, JsonView::Null);
    if says_no_text(body, name) {
        let v = choose|v: JsonView| #[trigger] says(body, name, v) && !(v is Str);
        law_fields_are_found(body, name, v);
    }
}

/// The names and the limit that an object gives.
proof fn lemma_named(body: JsonView, other: Seq<char>, name: Seq<char>, limit: u64)
    ensures
        names(body, other, name) ==> crate::frontend::name_field(body, other) == name,
        limits(body, limit) ==> crate::frontend::limit_field(body) == limit,
{
    law_fields_are_found(body, "name"@, JsonView::Str(name));
    law_fields_are_found(body, other, JsonView::Str(name));
    law_fields_are_found(body, "limit"@, JsonView::Number(limit));
    lemma_wordless(body, "name"@);
    lemma_wordless(body, other);
    if exists|v: JsonView| #[trigger] says(body, "limit"@, v) && !(v is Number) {
        let v = choose|v: JsonView| #[trigger] says(body, "limit"@, v) && !(v is Number);
        law_fields_are_found(body, "limit"@, v);
    }
}

/// **Values are what they are**: a text is a text, a whole number up to a bound is a number.
pub proof fn law_values_are_what_they_are(v: JsonView, max: nat)
    ensures
        v matches JsonView::Str(s) ==> v.text() == Some(s),
        !(v is Str) ==> v.text() is None,
        v matches JsonView::Number(n) ==> v.number(max) == if n <= max {
            Some(n)
        } else {
            None
        },
        !(v is Number) ==> v.number(max) is None,
{
}

/// A word for shared access.
pub open spec fn is_read_word(mode: Seq<char>) -> bool {
    mode == "read"@ || mode == "r"@ || mode == "shared"@
}

/// A word for exclusive access.
pub open spec fn is_write_word(mode: Seq<char>) -> bool {
    mode == "write"@ || mode == "w"@ || mode == "exclusive"@
}

/// Refused, with that status and that error.
pub open spec fn refuses(r: RoutedView, status: u16, code: Seq<char>) -> bool {
    r matches RoutedView::Reply(s, v) && s == status && is_refusal(v, code)
}

/// An object that says no, and why.
pub open spec fn is_refusal(v: JsonView, code: Seq<char>) -> bool {
    &&& says(v, "ok"@, JsonView::Bool(false))
    &&& says(v, "error"@, JsonView::Str(code))
}

/// A refusal is one.
proof fn lemma_refusal(code: Seq<char>, message: Seq<char>)
    ensures
        is_refusal(refusal(code, message), code),
        says(refusal(code, message), "message"@, JsonView::Str(message)),
{
    reveal_strlit("ok");
    reveal_strlit("error");
    reveal_strlit("message");
    assert("ok"@.len() == 2 && "error"@.len() == 5 && "message"@.len() == 7);
    let v = refusal(code, message);
    assert(said_at(v, "ok"@, JsonView::Bool(false), 0));
    assert(said_at(v, "error"@, JsonView::Str(code), 1));
    assert(said_at(v, "message"@, JsonView::Str(message), 2));
}

/// The methods differ, and so do the paths without names.
proof fn lemma_paths_differ()
    ensures
        "POST"@.len() == 4,
        "GET"@.len() == 3,
        "DELETE"@.len() == 6,
        "/healthz"@.len() == 8,
        "/locks/acquire"@.len() == 14,
        "/locks/release"@.len() == 14,
        "/semaphores/acquire"@.len() == 19,
        "/semaphores/release"@.len() == 19,
        "/rwlocks/acquire"@.len() == 16,
        "/rwlocks/release"@.len() == 16,
        "/locks/acquire"@[7] == 'a',
        "/locks/release"@[7] == 'r',
        "/semaphores/acquire"@[12] == 'a',
        "/semaphores/release"@[12] == 'r',
        "/rwlocks/acquire"@[9] == 'a',
        "/rwlocks/release"@[9] == 'r',
{
    reveal_strlit("POST");
    reveal_strlit("GET");
    reveal_strlit("DELETE");
    reveal_strlit("/healthz");
    reveal_strlit("/locks/acquire");
    reveal_strlit("/locks/release");
    reveal_strlit("/semaphores/acquire");
    reveal_strlit("/semaphores/release");
    reveal_strlit("/rwlocks/acquire");
    reveal_strlit("/rwlocks/release");
}

/// The words for the sides of an RW lock differ.
proof fn lemma_modes_differ()
    ensures
        "read"@.len() == 4,
        "r"@.len() == 1,
        "shared"@.len() == 6,
        "write"@.len() == 5,
        "w"@.len() == 1,
        "exclusive"@.len() == 9,
        "r"@[0] == 'r',
        "w"@[0] == 'w',
{
    reveal_strlit("read");
    reveal_strlit("r");
    reveal_strlit("shared");
    reveal_strlit("write");
    reveal_strlit("w");
    reveal_strlit("exclusive");
}

/// The operations in JSON differ.
proof fn lemma_operations_differ()
    ensures
        "acquire"@.len() == 7,
        "semaphore_acquire"@.len() == 17,
        "sem_acquire"@.len() == 11,
        "semaphore"@.len() == 9,
        "rw_acquire"@.len() == 10,
        "rwlock_acquire"@.len() == 14,
        "rw_read_acquire"@.len() == 15,
        "rwlock_read_acquire"@.len() == 19,
        "read_acquire"@.len() == 12,
        "rw_write_acquire"@.len() == 16,
        "rwlock_write_acquire"@.len() == 20,
        "write_acquire"@.len() == 13,
        "release"@.len() == 7,
        "acquire"@[0] == 'a',
        "release"@[0] == 'r',
{
    reveal_strlit("acquire");
    reveal_strlit("semaphore_acquire");
    reveal_strlit("sem_acquire");
    reveal_strlit("semaphore");
    reveal_strlit("rw_acquire");
    reveal_strlit("rwlock_acquire");
    reveal_strlit("rw_read_acquire");
    reveal_strlit("rwlock_read_acquire");
    reveal_strlit("read_acquire");
    reveal_strlit("rw_write_acquire");
    reveal_strlit("rwlock_write_acquire");
    reveal_strlit("write_acquire");
    reveal_strlit("release");
}

/// The operations in text differ.
proof fn lemma_commands_differ()
    ensures
        "acquire"@.len() == 7,
        "semacquire"@.len() == 10,
        "semaphore"@.len() == 9,
        "acquire-semaphore"@.len() == 17,
        "racquire"@.len() == 8,
        "rlock"@.len() == 5,
        "readlock"@.len() == 8,
        "rwread"@.len() == 6,
        "wacquire"@.len() == 8,
        "wlock"@.len() == 5,
        "writelock"@.len() == 9,
        "rwwrite"@.len() == 7,
        "release"@.len() == 7,
        "acquire"@[0] == 'a',
        "semaphore"@[0] == 's',
        "racquire"@[0] == 'r',
        "racquire"@[1] == 'a',
        "rlock"@[0] == 'r',
        "readlock"@[0] == 'r',
        "readlock"@[1] == 'e',
        "wacquire"@[0] == 'w',
        "wlock"@[0] == 'w',
        "writelock"@[0] == 'w',
        "rwwrite"@[0] == 'r',
        "rwwrite"@[1] == 'w',
        "release"@[0] == 'r',
        "release"@[1] == 'e',
{
    reveal_strlit("acquire");
    reveal_strlit("semacquire");
    reveal_strlit("semaphore");
    reveal_strlit("acquire-semaphore");
    reveal_strlit("racquire");
    reveal_strlit("rlock");
    reveal_strlit("readlock");
    reveal_strlit("rwread");
    reveal_strlit("wacquire");
    reveal_strlit("wlock");
    reveal_strlit("writelock");
    reveal_strlit("rwwrite");
    reveal_strlit("release");
}

// ---- HTTP: paths without names ----------------------------------------------------------------------
/// **RW locks over HTTP.** A POST to `/rwlocks/acquire` whose body has a mode, a name and a
/// limit becomes a request for the exclusive side with one of the words for writing, and for
/// the shared side with one of the words for reading, with that name and that limit. Any
/// other mode, no mode, or a limit that is too great is refused with 400.
pub proof fn law_rw_locks_over_http(
    query: Seq<char>,
    headers: Table<Seq<char>>,
    body: JsonView,
    mode: Seq<char>,
    name: Seq<char>,
    limit: u64,
)
    requires
        names(body, "rwlock"@, name),
        limits(body, limit),
    ensures
        ({
            let r = route("POST"@, "/rwlocks/acquire"@, query, headers, body);
            &&& says(body, "mode"@, JsonView::Str(mode)) && is_write_word(mode) && limit
                <= u32::MAX ==> r == RoutedView::Call(
                RequestView::Write { name, limit: limit as u32 },
            )
            &&& says(body, "mode"@, JsonView::Str(mode)) && is_read_word(mode) && limit
                <= u32::MAX ==> r == RoutedView::Call(
                RequestView::Read { name, limit: limit as u32 },
            )
            &&& says(body, "mode"@, JsonView::Str(mode)) && !is_write_word(mode)
                && !is_read_word(mode) ==> refuses(r, 400, "bad_limit"@)
            &&& wordless(body, "mode"@) ==> refuses(r, 400, "bad_limit"@)
            &&& limit > u32::MAX ==> refuses(r, 400, "bad_limit"@)
        }),
{
    lemma_paths_differ();
    lemma_modes_differ();
    law_fields_are_found(body, "mode"@, JsonView::Str(mode));
    lemma_wordless(body, "mode"@);
    lemma_named(body, "rwlock"@, name, limit);
    lemma_refusal("bad_limit"@, "limit must be between 2 and 100"@);
}

/// **Semaphores over HTTP.** A POST to `/semaphores/acquire` with a name and a limit becomes
/// a request for a permit of that semaphore; a limit that is too great is refused with 400.
pub proof fn law_semaphores_over_http(
    query: Seq<char>,
    headers: Table<Seq<char>>,
    body: JsonView,
    name: Seq<char>,
    limit: u64,
)
    requires
        names(body, "semaphore"@, name),
        limits(body, limit),
    ensures
        ({
            let r = route("POST"@, "/semaphores/acquire"@, query, headers, body);
            &&& limit <= u32::MAX ==> r == RoutedView::Call(
                RequestView::Semaphore { name, limit: limit as u32 },
            )
            &&& limit > u32::MAX ==> refuses(r, 400, "bad_limit"@)
        }),
{
    lemma_paths_differ();
    lemma_modes_differ();
    lemma_named(body, "semaphore"@, name, limit);
    lemma_refusal("bad_limit"@, "limit must be between 2 and 100"@);
}

/// **Locks over HTTP.** A POST to `/locks/acquire` becomes a request for the lock that the
/// body names; without one, for the lock without a name, which is refused later.
pub proof fn law_locks_over_http(
    query: Seq<char>,
    headers: Table<Seq<char>>,
    body: JsonView,
    lock: Seq<char>,
)
    ensures
        says(body, "lock"@, JsonView::Str(lock)) ==> route(
            "POST"@,
            "/locks/acquire"@,
            query,
            headers,
            body,
        ) == RoutedView::Call(RequestView::Acquire { lock }),
        wordless(body, "lock"@) ==> route("POST"@, "/locks/acquire"@, query, headers, body)
            == RoutedView::Call(RequestView::Acquire { lock: Seq::empty() }),
{
    lemma_paths_differ();
    law_fields_are_found(body, "lock"@, JsonView::Str(lock));
    lemma_wordless(body, "lock"@);
}

/// The methods that change something.
pub open spec fn changes(method: Seq<char>) -> bool {
    method == "POST"@ || method == "DELETE"@
}

/// **Releases over HTTP.** A POST or DELETE to one of the three paths for releases becomes a
/// release with the holder token; without a holder token it is refused with 400.
pub proof fn law_releases_over_http(
    method: Seq<char>,
    path: Seq<char>,
    query: Seq<char>,
    headers: Table<Seq<char>>,
    body: JsonView,
)
    requires
        changes(method),
        path == "/locks/release"@ || path == "/semaphores/release"@ || path == "/rwlocks/release"@,
    ensures
        match request_holder(query, headers, body) {
            Some(holder) => route(method, path, query, headers, body) == RoutedView::Call(
                RequestView::Release { holder },
            ),
            None => refuses(route(method, path, query, headers, body), 400, "missing_holder"@),
        },
{
    lemma_paths_differ();
    lemma_refusal("missing_holder"@, "release requires a holder token"@);
}

/// **Where a holder token stands.** The one in the body goes first, then the one in the
/// header, then the one in the query, decoded; there may be none.
pub proof fn law_where_a_holder_stands(
    query: Seq<char>,
    headers: Table<Seq<char>>,
    body: JsonView,
    holder: Seq<char>,
    other: Seq<char>,
)
    ensures
        says(body, "holder"@, JsonView::Str(holder)) ==> request_holder(query, headers, body)
            == Some(holder),
        wordless(body, "holder"@) && headers.get("x-lmx-holder"@) == Some(holder)
            ==> request_holder(query, headers, body) == Some(holder),
        wordless(body, "holder"@) && headers.get("x-lmx-holder"@) is None && lacks(holder, '&')
            ==> request_holder("holder="@ + holder, headers, body) == percent_decoded(holder),
        wordless(body, "holder"@) && headers.get("x-lmx-holder"@) is None && lacks(holder, '&')
            && lacks(other, '&') && other.len() > 0 && percent_decoded(
            crate::http::query_pair(other).0,
        ) != Some("holder"@) ==> request_holder(other + "&holder="@ + holder, headers, body)
            == percent_decoded(holder),
        wordless(body, "holder"@) && headers.get("x-lmx-holder"@) is None ==> request_holder(
            Seq::empty(),
            headers,
            body,
        ) is None,
{
    reveal_strlit("holder");
    reveal_strlit("holder=");
    reveal_strlit("&holder=");
    law_fields_are_found(body, "holder"@, JsonView::Str(holder));
    lemma_wordless(body, "holder"@);
    reveal_with_fuel(crate::http::first_value, 3);
    let pair = "holder="@ + holder;
    assert("holder="@ =~= "holder"@ + seq!['=']);
    assert(pair =~= "holder"@ + seq!['='] + holder);
    assert(lacks("holder"@, '='));
    law_splitting_once("holder"@, '=', holder);
    lemma_plain_text("holder"@);
    if lacks(holder, '&') {
        assert forall|i: int| 0 <= i < pair.len() implies #[trigger] pair[i] != '&' by {
            if i < 7 {
                assert(pair[i] == "holder="@[i]);
            } else {
                assert(pair[i] == holder[i - 7]);
            }
        }
        law_splitting(other, '&', pair);
        assert(crate::http::query_pair(pair) == ("holder"@, holder));
        assert(split(pair, '&')[0] == pair);
        if lacks(other, '&') {
            law_splitting(Seq::empty(), '&', other);
            let q = other + "&holder="@ + holder;
            assert("&holder="@ =~= seq!['&'] + "holder="@);
            assert(q =~= other + seq!['&'] + pair);
            let parts = split(q, '&');
            assert(parts == seq![other].push(pair));
            assert(parts.skip(1) =~= seq![pair]);
        }
    }
    assert(split(Seq::empty(), '&') =~= seq![Seq::<char>::empty()]);
    assert(seq![Seq::<char>::empty()].skip(1) =~= Seq::<Seq<char>>::empty());
}

/// Bytes that stand for themselves.
proof fn lemma_plain_bytes(b: Seq<u8>)
    requires
        forall|i: int| 0 <= i < b.len() ==> #[trigger] b[i] != 37 && b[i] != 43,
    ensures
        percent_bytes(b) == Some(b),
    decreases b.len(),
{
    if b.len() > 0 {
        let rest = b.skip(1);
        assert forall|i: int| 0 <= i < rest.len() implies #[trigger] rest[i] != 37 && rest[i]
            != 43 by {
            assert(rest[i] == b[i + 1]);
        }
        lemma_plain_bytes(rest);
        assert(seq![b[0]] + rest =~= b);
    } else {
        assert(b =~= Seq::empty());
    }
}

/// Plain text stands for itself.
proof fn lemma_plain_text(s: Seq<char>)
    requires
        forall|i: int| 0 <= i < s.len() ==> ' ' <= #[trigger] s[i] <= '~' && s[i] != '%' && s[i]
            != '+',
    ensures
        percent_decoded(s) == Some(s),
{
    assert(is_ascii_chars(s));
    lemma_ascii_bytes(s);
    let b = encode_utf8(s);
    assert forall|i: int| 0 <= i < b.len() implies #[trigger] b[i] != 37 && b[i] != 43 by {
        assert(b[i] == ascii_bytes(s)[i]);
        assert(s[i] != '%');
    }
    lemma_plain_bytes(b);
    encode_utf8_valid_utf8(s);
    encode_utf8_decode_utf8(s);
}

/// **Plain text stands for itself** in paths and queries.
pub proof fn law_plain_text_stands_for_itself(s: Seq<char>)
    requires
        forall|i: int| 0 <= i < s.len() ==> ' ' <= #[trigger] s[i] <= '~' && s[i] != '%' && s[i]
            != '+',
    ensures
        percent_decoded(s) == Some(s),
{
    lemma_plain_text(s);
}

/// **A healthy node says so**, to a GET of `/healthz`. Every other method than POST and
/// DELETE is refused with 405.
pub proof fn law_health_and_methods(
    method: Seq<char>,
    path: Seq<char>,
    query: Seq<char>,
    headers: Table<Seq<char>>,
    body: JsonView,
)
    ensures
        route("GET"@, "/healthz"@, query, headers, body) matches RoutedView::Reply(s, v) && s
            == 200 && says(v, "ok"@, JsonView::Bool(true)),
        !changes(method) && !(method == "GET"@ && path == "/healthz"@) ==> refuses(
            route(method, path, query, headers, body),
            405,
            "method_not_allowed"@,
        ),
{
    lemma_paths_differ();
    lemma_refusal("method_not_allowed"@, "use POST"@);
    assert(said_at(crate::http::healthy(), "ok"@, JsonView::Bool(true), 0));
}

// ---- HTTP: paths with names -------------------------------------------------------------------------
/// A path with three segments.
pub open spec fn path_of(kind: Seq<char>, segment: Seq<char>, action: Seq<char>) -> Seq<char> {
    "/"@ + kind + "/"@ + segment + "/"@ + action
}

/// A word of a path.
pub open spec fn path_word(w: Seq<char>) -> bool {
    w.len() > 0 && lacks(w, '/')
}

/// The segments of a path with three of them.
proof fn lemma_segments(kind: Seq<char>, segment: Seq<char>, action: Seq<char>)
    requires
        path_word(kind),
        lacks(segment, '/'),
        path_word(action),
    ensures
        split(strip(path_of(kind, segment, action), '/'), '/') == seq![kind, segment, action],
{
    reveal_strlit("/");
    let inner = kind + seq!['/'] + segment + seq!['/'] + action;
    assert("/"@ =~= seq!['/']);
    assert(path_of(kind, segment, action) =~= seq!['/'] + inner);
    assert(inner[0] == kind[0]);
    assert(inner.last() == action[action.len() - 1]);
    law_stripping(inner, '/');
    law_splitting(Seq::empty(), '/', kind);
    law_splitting(kind, '/', segment);
    law_splitting(kind + seq!['/'] + segment, '/', action);
    assert(seq![kind].push(segment).push(action) =~= seq![kind, segment, action]);
}

/// The segments of a path with two of them.
proof fn lemma_two_segments(path: Seq<char>, kind: Seq<char>, action: Seq<char>)
    requires
        path_word(kind),
        path_word(action),
        path == seq!['/'] + (kind + seq!['/'] + action),
    ensures
        split(strip(path, '/'), '/') == seq![kind, action],
{
    let inner = kind + seq!['/'] + action;
    assert(inner[0] == kind[0]);
    assert(inner.last() == action[action.len() - 1]);
    law_stripping(inner, '/');
    law_splitting(Seq::empty(), '/', kind);
    law_splitting(kind, '/', action);
    assert(seq![kind].push(action) =~= seq![kind, action]);
}

/// No path with three segments is one with two.
proof fn lemma_named_paths(kind: Seq<char>, segment: Seq<char>, action: Seq<char>)
    requires
        path_word(kind),
        lacks(segment, '/'),
        path_word(action),
    ensures
        path_of(kind, segment, action) != "/locks/acquire"@,
        path_of(kind, segment, action) != "/locks/release"@,
        path_of(kind, segment, action) != "/semaphores/acquire"@,
        path_of(kind, segment, action) != "/semaphores/release"@,
        path_of(kind, segment, action) != "/rwlocks/acquire"@,
        path_of(kind, segment, action) != "/rwlocks/release"@,
{
    lemma_segments(kind, segment, action);
    lemma_short_paths();
}

/// The paths with two segments.
proof fn lemma_short_paths()
    ensures
        split(strip("/locks/acquire"@, '/'), '/').len() == 2,
        split(strip("/locks/release"@, '/'), '/').len() == 2,
        split(strip("/semaphores/acquire"@, '/'), '/').len() == 2,
        split(strip("/semaphores/release"@, '/'), '/').len() == 2,
        split(strip("/rwlocks/acquire"@, '/'), '/').len() == 2,
        split(strip("/rwlocks/release"@, '/'), '/').len() == 2,
{
    reveal_strlit("/healthz");
    reveal_strlit("/locks/acquire");
    reveal_strlit("/locks/release");
    reveal_strlit("/semaphores/acquire");
    reveal_strlit("/semaphores/release");
    reveal_strlit("/rwlocks/acquire");
    reveal_strlit("/rwlocks/release");
    reveal_strlit("locks");
    reveal_strlit("semaphores");
    reveal_strlit("rwlocks");
    reveal_strlit("acquire");
    reveal_strlit("release");
    assert("/locks/acquire"@ =~= seq!['/'] + ("locks"@ + seq!['/'] + "acquire"@));
    assert("/locks/release"@ =~= seq!['/'] + ("locks"@ + seq!['/'] + "release"@));
    assert("/semaphores/acquire"@ =~= seq!['/'] + ("semaphores"@ + seq!['/'] + "acquire"@));
    assert("/semaphores/release"@ =~= seq!['/'] + ("semaphores"@ + seq!['/'] + "release"@));
    assert("/rwlocks/acquire"@ =~= seq!['/'] + ("rwlocks"@ + seq!['/'] + "acquire"@));
    assert("/rwlocks/release"@ =~= seq!['/'] + ("rwlocks"@ + seq!['/'] + "release"@));
    lemma_two_segments("/locks/acquire"@, "locks"@, "acquire"@);
    lemma_two_segments("/locks/release"@, "locks"@, "release"@);
    lemma_two_segments("/semaphores/acquire"@, "semaphores"@, "acquire"@);
    lemma_two_segments("/semaphores/release"@, "semaphores"@, "release"@);
    lemma_two_segments("/rwlocks/acquire"@, "rwlocks"@, "acquire"@);
    lemma_two_segments("/rwlocks/release"@, "rwlocks"@, "release"@);
}

/// **Names in paths.** A path with the name of a lock, a semaphore or an RW lock asks for
/// that one, or releases it. What stands in the path is decoded first.
pub proof fn law_names_in_paths(
    method: Seq<char>,
    segment: Seq<char>,
    query: Seq<char>,
    headers: Table<Seq<char>>,
    body: JsonView,
    name: Seq<char>,
    limit: u64,
    holder: Seq<char>,
)
    requires
        changes(method),
        lacks(segment, '/'),
        percent_decoded(segment) == Some(name),
        limits(body, limit),
        limit <= u32::MAX,
        request_holder(query, headers, body) == Some(holder),
    ensures
        route(method, path_of("locks"@, segment, "acquire"@), query, headers, body)
            == RoutedView::Call(RequestView::Acquire { lock: name }),
        route(method, path_of("locks"@, segment, "release"@), query, headers, body)
            == RoutedView::Call(RequestView::ReleaseLock { lock: name, holder }),
        route(method, path_of("semaphores"@, segment, "acquire"@), query, headers, body)
            == RoutedView::Call(RequestView::Semaphore { name, limit: limit as u32 }),
        route(method, path_of("semaphores"@, segment, "release"@), query, headers, body)
            == RoutedView::Call(RequestView::Release { holder }),
        route(method, path_of("rwlocks"@, segment, "read-acquire"@), query, headers, body)
            == RoutedView::Call(RequestView::Read { name, limit: limit as u32 }),
        route(method, path_of("rwlocks"@, segment, "read"@), query, headers, body)
            == RoutedView::Call(RequestView::Read { name, limit: limit as u32 }),
        route(method, path_of("rwlocks"@, segment, "write-acquire"@), query, headers, body)
            == RoutedView::Call(RequestView::Write { name, limit: limit as u32 }),
        route(method, path_of("rwlocks"@, segment, "write"@), query, headers, body)
            == RoutedView::Call(RequestView::Write { name, limit: limit as u32 }),
        route(method, path_of("rwlocks"@, segment, "release"@), query, headers, body)
            == RoutedView::Call(RequestView::ReleaseRw { name, holder }),
{
    lemma_path_words();
    lemma_named(body, "name"@, name, limit);
    assert forall|kind: Seq<char>, action: Seq<char>|
        path_word(kind) && path_word(action) implies #[trigger] route(
        method,
        path_of(kind, segment, action),
        query,
        headers,
        body,
    ) == crate::http::named_route(seq![kind, segment, action], query, headers, body) by {
        lemma_named_route(method, kind, segment, action, query, headers, body);
    }
    lemma_words_differ();
}

/// **Bad requests in paths** are refused with 400: a limit that is too great, and a release
/// without a holder token. What cannot be decoded stands for the empty name.
pub proof fn law_bad_requests_in_paths(
    method: Seq<char>,
    segment: Seq<char>,
    query: Seq<char>,
    headers: Table<Seq<char>>,
    body: JsonView,
    limit: u64,
)
    requires
        changes(method),
        lacks(segment, '/'),
        limits(body, limit),
    ensures
        limit > u32::MAX ==> {
            &&& refuses(
                route(method, path_of("semaphores"@, segment, "acquire"@), query, headers, body),
                400,
                "bad_limit"@,
            )
            &&& refuses(
                route(method, path_of("rwlocks"@, segment, "read"@), query, headers, body),
                400,
                "bad_limit"@,
            )
            &&& refuses(
                route(method, path_of("rwlocks"@, segment, "write"@), query, headers, body),
                400,
                "bad_limit"@,
            )
        },
        request_holder(query, headers, body) is None ==> {
            &&& refuses(
                route(method, path_of("locks"@, segment, "release"@), query, headers, body),
                400,
                "missing_holder"@,
            )
            &&& refuses(
                route(method, path_of("semaphores"@, segment, "release"@), query, headers, body),
                400,
                "missing_holder"@,
            )
            &&& refuses(
                route(method, path_of("rwlocks"@, segment, "release"@), query, headers, body),
                400,
                "missing_holder"@,
            )
        },
        percent_decoded(segment) is None ==> route(
            method,
            path_of("locks"@, segment, "acquire"@),
            query,
            headers,
            body,
        ) == RoutedView::Call(RequestView::Acquire { lock: Seq::empty() }),
{
    lemma_path_words();
    lemma_named(body, "name"@, Seq::empty(), limit);
    lemma_refusal("bad_limit"@, "limit must be between 2 and 100"@);
    lemma_refusal("missing_holder"@, "release requires a holder token"@);
    lemma_named_route(method, "locks"@, segment, "acquire"@, query, headers, body);
    lemma_named_route(method, "locks"@, segment, "release"@, query, headers, body);
    lemma_named_route(method, "semaphores"@, segment, "acquire"@, query, headers, body);
    lemma_named_route(method, "semaphores"@, segment, "release"@, query, headers, body);
    lemma_named_route(method, "rwlocks"@, segment, "read"@, query, headers, body);
    lemma_named_route(method, "rwlocks"@, segment, "write"@, query, headers, body);
    lemma_named_route(method, "rwlocks"@, segment, "release"@, query, headers, body);
    lemma_words_differ();
}

/// The words of the paths with names.
proof fn lemma_path_words()
    ensures
        path_word("locks"@) && path_word("semaphores"@) && path_word("rwlocks"@),
        path_word("acquire"@) && path_word("release"@),
        path_word("read-acquire"@) && path_word("read"@),
        path_word("write-acquire"@) && path_word("write"@),
{
    reveal_strlit("locks");
    reveal_strlit("semaphores");
    reveal_strlit("rwlocks");
    reveal_strlit("acquire");
    reveal_strlit("release");
    reveal_strlit("read-acquire");
    reveal_strlit("read");
    reveal_strlit("write-acquire");
    reveal_strlit("write");
    assert("locks"@.len() == 5);
    assert("semaphores"@.len() == 10);
    assert("rwlocks"@.len() == 7);
    assert("acquire"@.len() == 7);
    assert("release"@.len() == 7);
    assert("read-acquire"@.len() == 12);
    assert("read"@.len() == 4);
    assert("write-acquire"@.len() == 13);
    assert("write"@.len() == 5);
    assert("locks"@[0] == 'l');
    assert("rwlocks"@[0] == 'r');
    assert("rwlocks"@[1] == 'w');
    assert("acquire"@[0] == 'a');
    assert("release"@[0] == 'r');
    assert("release"@[1] == 'e');
    assert("write"@[0] == 'w');
}

/// They differ.
proof fn lemma_words_differ()
    ensures
        "locks"@ != "semaphores"@ && "locks"@ != "rwlocks"@ && "semaphores"@ != "rwlocks"@,
        "acquire"@ != "release"@,
        "read-acquire"@ != "acquire"@ && "read-acquire"@ != "release"@,
        "read"@ != "acquire"@ && "read"@ != "release"@,
        "write-acquire"@ != "acquire"@ && "write-acquire"@ != "release"@ && "write-acquire"@
            != "read-acquire"@ && "write-acquire"@ != "read"@,
        "write"@ != "acquire"@ && "write"@ != "release"@ && "write"@ != "read-acquire"@
            && "write"@ != "read"@,
        "release"@ != "read-acquire"@ && "release"@ != "read"@ && "release"@ != "write-acquire"@
            && "release"@ != "write"@,
        "write"@ != "r"@ && "write"@ != "shared"@,
{
    reveal_strlit("locks");
    reveal_strlit("semaphores");
    reveal_strlit("rwlocks");
    reveal_strlit("acquire");
    reveal_strlit("release");
    reveal_strlit("read-acquire");
    reveal_strlit("read");
    reveal_strlit("write-acquire");
    reveal_strlit("write");
    reveal_strlit("r");
    reveal_strlit("shared");
    reveal_strlit("w");
    reveal_strlit("exclusive");
    assert("locks"@.len() == 5);
    assert("semaphores"@.len() == 10);
    assert("rwlocks"@.len() == 7);
    assert("acquire"@.len() == 7);
    assert("release"@.len() == 7);
    assert("read-acquire"@.len() == 12);
    assert("read"@.len() == 4);
    assert("write-acquire"@.len() == 13);
    assert("write"@.len() == 5);
    assert("r"@.len() == 1);
    assert("shared"@.len() == 6);
    assert("w"@.len() == 1);
    assert("exclusive"@.len() == 9);
    assert("locks"@[0] == 'l');
    assert("rwlocks"@[0] == 'r');
    assert("rwlocks"@[1] == 'w');
    assert("acquire"@[0] == 'a');
    assert("release"@[0] == 'r');
    assert("release"@[1] == 'e');
    assert("write"@[0] == 'w');
    assert("r"@[0] == 'r');
    assert("w"@[0] == 'w');
}

/// A path with three segments goes by its segments.
proof fn lemma_named_route(
    method: Seq<char>,
    kind: Seq<char>,
    segment: Seq<char>,
    action: Seq<char>,
    query: Seq<char>,
    headers: Table<Seq<char>>,
    body: JsonView,
)
    requires
        changes(method),
        path_word(kind),
        lacks(segment, '/'),
        path_word(action),
    ensures
        route(method, path_of(kind, segment, action), query, headers, body)
            == crate::http::named_route(seq![kind, segment, action], query, headers, body),
{
    lemma_paths_differ();
    lemma_segments(kind, segment, action);
    lemma_named_paths(kind, segment, action);
}

/// **Every other path is unknown.** A path of which the kind is none of the three, or the
/// action none that the kind has, is refused with 404; so is any path that has neither two
/// segments nor three.
pub proof fn law_other_paths_are_unknown(
    method: Seq<char>,
    path: Seq<char>,
    kind: Seq<char>,
    segment: Seq<char>,
    action: Seq<char>,
    query: Seq<char>,
    headers: Table<Seq<char>>,
    body: JsonView,
)
    requires
        changes(method),
        path_word(kind),
        lacks(segment, '/'),
        path_word(action),
    ensures
        kind != "locks"@ && kind != "semaphores"@ && kind != "rwlocks"@ ==> refuses(
            route(method, path_of(kind, segment, action), query, headers, body),
            404,
            "not_found"@,
        ),
        (kind == "locks"@ || kind == "semaphores"@) && action != "acquire"@ && action
            != "release"@ ==> refuses(
            route(method, path_of(kind, segment, action), query, headers, body),
            404,
            "not_found"@,
        ),
        kind == "rwlocks"@ && action != "release"@ && action != "read-acquire"@ && action
            != "read"@ && action != "write-acquire"@ && action != "write"@ ==> refuses(
            route(method, path_of(kind, segment, action), query, headers, body),
            404,
            "not_found"@,
        ),
        split(strip(path, '/'), '/').len() != 2 && split(strip(path, '/'), '/').len() != 3
            ==> refuses(route(method, path, query, headers, body), 404, "not_found"@),
{
    lemma_paths_differ();
    lemma_refusal("not_found"@, "unknown endpoint"@);
    lemma_named_route(method, kind, segment, action, query, headers, body);
    lemma_short_paths();
    lemma_words_differ();
}

/// **Only a POST acquires** by one of the three paths without a name.
pub proof fn law_only_a_post_acquires(
    path: Seq<char>,
    query: Seq<char>,
    headers: Table<Seq<char>>,
    body: JsonView,
)
    requires
        path == "/locks/acquire"@ || path == "/semaphores/acquire"@ || path == "/rwlocks/acquire"@,
    ensures
        refuses(route("DELETE"@, path, query, headers, body), 404, "not_found"@),
{
    lemma_paths_differ();
    lemma_refusal("not_found"@, "unknown endpoint"@);
    lemma_short_paths();
}

// ---- HTTP: heads and answers ------------------------------------------------------------------------
/// **Requests are read from lines.** The first line is the request line; each further line
/// with a colon is a header, of which the name is trimmed and in lower case and the value
/// trimmed; an empty line ends the head. Then a body of the announced length is read, or of
/// none. More than a hundred headers, or a longer body than allowed, are refused.
pub proof fn law_requests_are_read_from_lines(
    h: HeadView,
    line: Seq<char>,
    name: Seq<char>,
    value: Seq<char>,
)
    requires
        h.headers.wf(),
    ensures
        MAX_HTTP_HEADERS == 100,
        MAX_HTTP_BODY == 1024 * 1024,
        HeadView::fresh().request_line is None,
        h.request_line is None ==> h.line(line).1 is Line && h.line(line).0.request_line == Some(
            line,
        ) && h.line(line).0.headers == h.headers,
        h.request_line is Some && lacks(name, ':') && tight(value) && value.len() > 0 ==> ({
            let (next, what) = h.line(name + ":"@ + value + "\r\n"@);
            &&& next.headers.get(lower(trim(name))) == Some(value)
            &&& next.request_line == h.request_line
            &&& forall|other: Seq<char>|
                other != lower(trim(name)) ==> #[trigger] next.headers.get(other)
                    == h.headers.get(other)
            &&& next.headers.keys.len() <= 100 ==> what is Line
            &&& next.headers.keys.len() > 100 ==> (what matches NextView::Reply(s, v) && s == 431
                && is_refusal(v, "too_many_headers"@))
        }),
        h.request_line is Some && lacks(name, ':') && tight(name) && name.len() > 0
            && h.headers.keys.len() <= 100 ==> h.line(name + "\r\n"@) == (h, NextView::Line),
        h.request_line is Some ==> ({
            let (next, what) = h.line("\r\n"@);
            &&& next == h
            &&& h.headers.get("content-length"@) is None ==> what == NextView::Body(0)
            &&& h.headers.get("content-length"@) matches Some(v) ==> (parse_number(
                v,
                usize::MAX as nat,
            ) is None ==> what == NextView::Body(0))
            &&& forall|n: usize|
                h.headers.get("content-length"@) == Some(#[trigger] decimal(n as nat)) ==> {
                    &&& n <= 1024 * 1024 ==> what == NextView::Body(n)
                    &&& n > 1024 * 1024 ==> (what matches NextView::Reply(s, v) && s == 413
                        && is_refusal(v, "body_too_large"@))
                }
        }),
{
    reveal_strlit("\r\n");
    reveal_strlit(":");
    reveal_strlit("ok");
    reveal_strlit("error");
    assert("ok"@.len() == 2 && "error"@.len() == 5);
    let large = crate::http::bare_refusal("body_too_large"@);
    let many = crate::http::bare_refusal("too_many_headers"@);
    assert(said_at(large, "ok"@, JsonView::Bool(false), 0));
    assert(said_at(large, "error"@, JsonView::Str("body_too_large"@), 1));
    assert(said_at(many, "ok"@, JsonView::Bool(false), 0));
    assert(said_at(many, "error"@, JsonView::Str("too_many_headers"@), 1));
    reveal_with_fuel(crate::http::without_end, 4);
    let end = "\r\n"@;
    assert(end.drop_last() =~= seq!['\r']);
    assert(seq!['\r'].drop_last() =~= Seq::<char>::empty());
    assert(crate::http::without_end(end) =~= Seq::<char>::empty());
    assert forall|n: usize|
        h.headers.get("content-length"@) == Some(#[trigger] decimal(n as nat)) implies parse_number(
        decimal(n as nat),
        usize::MAX as nat,
    ) == Some(n as nat) by {
        crate::text::law_decimal_reads_back(n as nat, usize::MAX as nat);
    }
    if lacks(name, ':') && tight(name) && name.len() > 0 {
        let full = name + end;
        let half = name.push('\r');
        assert(full.drop_last() =~= half);
        assert(half.drop_last() =~= name);
        assert(white('\r') && white('\n'));
        assert(crate::http::without_end(name) == name);
        assert(crate::http::without_end(full) == name);
        law_splitting_once(name, ':', Seq::empty());
    }
    if lacks(name, ':') && tight(value) && value.len() > 0 {
        let full = name + ":"@ + value + end;
        let bare = name + ":"@ + value;
        let half = bare.push('\r');
        assert(full.drop_last() =~= half);
        assert(half.drop_last() =~= bare);
        assert(bare.last() == value.last());
        assert(white('\r') && white('\n'));
        assert(crate::http::without_end(bare) == bare);
        assert(crate::http::without_end(full) == bare);
        assert(":"@ =~= seq![':']);
        law_splitting_once(name, ':', value);
        law_trimming(Seq::empty(), value, Seq::empty());
    }
}

/// **The request line** has the method, and the path with its query behind a question mark.
pub proof fn law_request_line(
    h: HeadView,
    method: Seq<char>,
    path: Seq<char>,
    query: Seq<char>,
    version: Seq<char>,
)
    requires
        method.len() > 0,
        solid(method),
        path.len() > 0,
        solid(path),
        lacks(path, '?'),
        solid(query),
        version.len() > 0,
        solid(version),
    ensures
        h.request_line == Some(method + " "@ + (path + "?"@ + query) + " "@ + version)
            ==> h.target() == (method, path, query),
        h.request_line == Some(method + " "@ + path + " "@ + version) ==> h.target() == (
            method,
            path,
            Seq::<char>::empty(),
        ),
{
    reveal_strlit("?");
    assert("?"@ =~= seq!['?']);
    let target = path + "?"@ + query;
    assert forall|i: int| 0 <= i < target.len() implies !white(#[trigger] target[i]) by {
        if i < path.len() {
            assert(target[i] == path[i]);
        } else if i > path.len() {
            assert(target[i] == query[i - path.len() - 1]);
        }
    }
    law_words(Seq::empty(), method);
    law_words(method, target);
    law_words(method + " "@ + target, version);
    law_words(method, path);
    law_words(method + " "@ + path, version);
    law_splitting_once(path, '?', query);
}

/// **Bodies are JSON.** A request without a body has the value null; a body that is not JSON
/// is refused with 400, before anything else is looked at; any other goes by its path.
pub proof fn law_bodies_are_json(h: HeadView, body: Seq<u8>, v: JsonView)
    ensures
        body_value(Seq::empty()) == Some(JsonView::Null),
        body.len() > 0 && valid_utf8(body) ==> body_value(body) == json_value(decode_utf8(body)),
        body.len() > 0 && !valid_utf8(body) ==> body_value(body) is None,
        refuses(h.routed(None), 400, "bad_json"@),
        h.routed(Some(v)) == route(h.target().0, h.target().1, h.target().2, h.headers, v),
{
    lemma_refusal("bad_json"@, "malformed JSON body"@);
}

/// **Statuses.** What succeeds is answered with 200, what fails with the status of its error,
/// and each with the object that says so.
pub proof fn law_statuses(a: AnswerView, e: ClientError)
    ensures
        outcome_reply(Ok(a)).0 == 200,
        says(outcome_reply(Ok(a)).1, "ok"@, JsonView::Bool(true)),
        outcome_reply(Err(e)).0 == e.http_status(),
        is_refusal(outcome_reply(Err(e)).1, e.name()),
        says(outcome_reply(Err(e)).1, "message"@, JsonView::Str(e.message())),
        reason(200) == "OK"@,
        reason(400) == "Bad Request"@,
        reason(404) == "Not Found"@,
        reason(405) == "Method Not Allowed"@,
        reason(409) == "Conflict"@,
        reason(413) == "Payload Too Large"@,
        reason(503) == "Service Unavailable"@,
        reason(431) == "Error"@,
{
    lemma_refusal(e.name(), e.message());
    lemma_answers_say_ok(a);
}

/// **Responses** have the status and its words, the kind and the length of the body in bytes,
/// and the body.
pub proof fn law_responses(status: u16, body: Seq<char>)
    ensures
        response(status, body) == "HTTP/1.1 "@ + decimal(status as nat) + " "@ + reason(status)
            + "\r\nContent-Type: application/json\r\nContent-Length: "@ + decimal(
            encode_utf8(body).len(),
        ) + "\r\nConnection: close\r\n\r\n"@ + body,
{
}

// ---- objects in answer ------------------------------------------------------------------------------
/// The names of the fields.
proof fn lemma_field_names()
    ensures
        "ok"@.len() == 2 && "lock"@.len() == 4 && "fence"@.len() == 5 && "holder"@.len() == 6,
        "limit"@.len() == 5 && "permit"@.len() == 6 && "semaphore"@.len() == 9,
        "rwlock"@.len() == 6 && "mode"@.len() == 4,
        "fence"@ != "limit"@ && "holder"@ != "permit"@ && "holder"@ != "rwlock"@ && "permit"@
            != "rwlock"@ && "lock"@ != "mode"@,
{
    reveal_strlit("ok");
    reveal_strlit("lock");
    reveal_strlit("fence");
    reveal_strlit("holder");
    reveal_strlit("limit");
    reveal_strlit("permit");
    reveal_strlit("semaphore");
    reveal_strlit("rwlock");
    reveal_strlit("mode");
    assert("fence"@[0] == 'f' && "limit"@[0] == 'l');
    assert("holder"@[0] == 'h' && "permit"@[0] == 'p' && "rwlock"@[0] == 'r');
    assert("lock"@[0] == 'l' && "mode"@[0] == 'm');
}

/// Every answer says yes.
proof fn lemma_answers_say_ok(a: AnswerView)
    ensures
        says(answer_json(a), "ok"@, JsonView::Bool(true)),
{
    lemma_field_names();
    assert(said_at(answer_json(a), "ok"@, JsonView::Bool(true), 0));
}

/// **Whoever has acquired something is told all about it**: what it is, its limit and its
/// permit where it has them, the fence and the holder token.
pub proof fn law_acquisitions_in_json(a: AcquireView, s: SemaphoreAcquireView, r: RwAcquireView)
    ensures
        ({
            let v = answer_json(AnswerView::Lock(a));
            &&& says(v, "ok"@, JsonView::Bool(true))
            &&& says(v, "lock"@, JsonView::Str(a.lock))
            &&& says(v, "fence"@, JsonView::Number(a.fence))
            &&& says(v, "holder"@, JsonView::Str(a.holder))
        }),
        ({
            let v = answer_json(AnswerView::Semaphore(s));
            &&& says(v, "ok"@, JsonView::Bool(true))
            &&& says(v, "semaphore"@, JsonView::Str(s.semaphore))
            &&& says(v, "limit"@, JsonView::Number(s.limit as u64))
            &&& says(v, "permit"@, JsonView::Number(s.permit as u64))
            &&& says(v, "fence"@, JsonView::Number(s.fence))
            &&& says(v, "holder"@, JsonView::Str(s.holder))
        }),
        ({
            let v = answer_json(AnswerView::Rw(r));
            &&& says(v, "ok"@, JsonView::Bool(true))
            &&& says(v, "rwlock"@, JsonView::Str(r.rwlock))
            &&& r.mode is Read ==> says(v, "mode"@, JsonView::Str("read"@))
            &&& r.mode is Write ==> says(v, "mode"@, JsonView::Str("write"@))
            &&& says(v, "limit"@, JsonView::Number(r.limit as u64))
            &&& r.permit matches Some(p) ==> says(v, "permit"@, JsonView::Number(p as u64))
            &&& r.permit is None ==> silent(v, "permit"@)
            &&& says(v, "fence"@, JsonView::Number(r.fence))
            &&& says(v, "holder"@, JsonView::Str(r.holder))
        }),
{
    lemma_field_names();
    let v = answer_json(AnswerView::Lock(a));
    assert(said_at(v, "ok"@, JsonView::Bool(true), 0));
    assert(said_at(v, "lock"@, JsonView::Str(a.lock), 1));
    assert(said_at(v, "fence"@, JsonView::Number(a.fence), 2));
    assert(said_at(v, "holder"@, JsonView::Str(a.holder), 3));
    let v = answer_json(AnswerView::Semaphore(s));
    assert(said_at(v, "ok"@, JsonView::Bool(true), 0));
    assert(said_at(v, "semaphore"@, JsonView::Str(s.semaphore), 1));
    assert(said_at(v, "limit"@, JsonView::Number(s.limit as u64), 2));
    assert(said_at(v, "permit"@, JsonView::Number(s.permit as u64), 3));
    assert(said_at(v, "fence"@, JsonView::Number(s.fence), 4));
    assert(said_at(v, "holder"@, JsonView::Str(s.holder), 5));
    let v = answer_json(AnswerView::Rw(r));
    let k: int = if r.permit is Some {
        5
    } else {
        4
    };
    assert(said_at(v, "ok"@, JsonView::Bool(true), 0));
    assert(said_at(v, "rwlock"@, JsonView::Str(r.rwlock), 1));
    assert(said_at(v, "mode"@, JsonView::Str(r.mode.name()), 2));
    assert(said_at(v, "limit"@, JsonView::Number(r.limit as u64), 3));
    if let Some(p) = r.permit {
        assert(said_at(v, "permit"@, JsonView::Number(p as u64), 4));
    }
    assert(said_at(v, "fence"@, JsonView::Number(r.fence), k));
    assert(said_at(v, "holder"@, JsonView::Str(r.holder), k + 1));
}

/// **Whoever has released something is told what it was**: a side of an RW lock, a permit of
/// a semaphore, or a lock.
pub proof fn law_releases_in_json(
    lock: Seq<char>,
    name: Seq<char>,
    limit: u32,
    permit: Option<u32>,
    p: u32,
    mode: RwMode,
)
    ensures
        ({
            let v = answer_json(
                AnswerView::Release(
                    ReleaseView {
                        lock,
                        semaphore: None,
                        limit: None,
                        permit: None,
                        rwlock: None,
                        mode: None,
                    },
                ),
            );
            says(v, "ok"@, JsonView::Bool(true)) && says(v, "lock"@, JsonView::Str(lock))
        }),
        ({
            let v = answer_json(
                AnswerView::Release(
                    ReleaseView {
                        lock,
                        semaphore: Some(name),
                        limit: Some(limit),
                        permit: Some(p),
                        rwlock: None,
                        mode: None,
                    },
                ),
            );
            &&& says(v, "ok"@, JsonView::Bool(true))
            &&& says(v, "semaphore"@, JsonView::Str(name))
            &&& says(v, "limit"@, JsonView::Number(limit as u64))
            &&& says(v, "permit"@, JsonView::Number(p as u64))
        }),
        ({
            let v = answer_json(
                AnswerView::Release(
                    ReleaseView {
                        lock,
                        semaphore: None,
                        limit: Some(limit),
                        permit,
                        rwlock: Some(name),
                        mode: Some(mode),
                    },
                ),
            );
            &&& says(v, "ok"@, JsonView::Bool(true))
            &&& says(v, "rwlock"@, JsonView::Str(name))
            &&& mode is Read ==> says(v, "mode"@, JsonView::Str("read"@))
            &&& mode is Write ==> says(v, "mode"@, JsonView::Str("write"@))
            &&& says(v, "limit"@, JsonView::Number(limit as u64))
            &&& permit matches Some(q) ==> says(v, "permit"@, JsonView::Number(q as u64))
            &&& permit is None ==> silent(v, "permit"@)
        }),
{
    lemma_field_names();
    let r = ReleaseView {
        lock,
        semaphore: None,
        limit: None,
        permit: None,
        rwlock: None,
        mode: None,
    };
    let v = answer_json(AnswerView::Release(r));
    assert(said_at(v, "ok"@, JsonView::Bool(true), 0));
    assert(said_at(v, "lock"@, JsonView::Str(lock), 1));
    let r = ReleaseView { semaphore: Some(name), limit: Some(limit), permit: Some(p), ..r };
    let v = answer_json(AnswerView::Release(r));
    assert(said_at(v, "ok"@, JsonView::Bool(true), 0));
    assert(said_at(v, "semaphore"@, JsonView::Str(name), 1));
    assert(said_at(v, "limit"@, JsonView::Number(limit as u64), 2));
    assert(said_at(v, "permit"@, JsonView::Number(p as u64), 3));
    let r = ReleaseView { semaphore: None, permit, rwlock: Some(name), mode: Some(mode), ..r };
    let v = answer_json(AnswerView::Release(r));
    assert(said_at(v, "ok"@, JsonView::Bool(true), 0));
    assert(said_at(v, "rwlock"@, JsonView::Str(name), 1));
    assert(said_at(v, "mode"@, JsonView::Str(mode.name()), 2));
    assert(said_at(v, "limit"@, JsonView::Number(limit as u64), 3));
    if let Some(q) = permit {
        assert(said_at(v, "permit"@, JsonView::Number(q as u64), 4));
    }
}

/// **Outcomes in JSON** are the answer, or the refusal with the error's name and message.
pub proof fn law_outcomes_in_json(a: AnswerView, e: ClientError)
    ensures
        outcome_json(Ok(a)) == answer_json(a),
        is_refusal(outcome_json(Err(e)), e.name()),
        says(outcome_json(Err(e)), "message"@, JsonView::Str(e.message())),
        is_refusal(error_json(e), e.name()),
{
    lemma_refusal(e.name(), e.message());
}

// ---- lines of JSON ----------------------------------------------------------------------------------
/// **Requests in JSON.** The field `op` says what is asked for, by any of its names; the
/// other fields say of what. Anything else is refused.
pub proof fn law_requests_in_json(
    v: JsonView,
    op: Seq<char>,
    lock: Seq<char>,
    holder: Seq<char>,
)
    requires
        says(v, "op"@, JsonView::Str(op)),
    ensures
        op == "acquire"@ && says(v, "lock"@, JsonView::Str(lock)) ==> object_request(v) == Ok::<
            RequestView,
            JsonView,
        >(RequestView::Acquire { lock }),
        op == "acquire"@ && wordless(v, "lock"@) ==> (object_request(v) matches Err(no)
            && is_refusal(no, "empty_lock"@)),
        op == "release"@ && says(v, "holder"@, JsonView::Str(holder)) ==> object_request(v)
            == Ok::<RequestView, JsonView>(RequestView::Release { holder }),
        op == "release"@ && wordless(v, "holder"@) ==> (object_request(v) matches Err(no)
            && is_refusal(no, "not_held"@)),
        op != "acquire"@ && op != "semaphore_acquire"@ && op != "sem_acquire"@ && op
            != "semaphore"@ && op != "rw_acquire"@ && op != "rwlock_acquire"@ && op
            != "rw_read_acquire"@ && op != "rwlock_read_acquire"@ && op != "read_acquire"@ && op
            != "rw_write_acquire"@ && op != "rwlock_write_acquire"@ && op != "write_acquire"@
            && op != "release"@ ==> (object_request(v) matches Err(no) && is_refusal(
            no,
            "bad_request"@,
        )),
{
    lemma_operations_differ();
    law_fields_are_found(v, "op"@, JsonView::Str(op));
    law_fields_are_found(v, "lock"@, JsonView::Str(lock));
    law_fields_are_found(v, "holder"@, JsonView::Str(holder));
    lemma_wordless(v, "lock"@);
    lemma_wordless(v, "holder"@);
    lemma_refusal("empty_lock"@, "lock must not be empty"@);
    lemma_refusal("not_held"@, "holder token does not refer to a held lock"@);
    lemma_refusal("bad_request"@, "unknown op"@);
}

/// **Semaphores and RW locks in JSON.** The side of an RW lock stands in the name of the
/// operation or in the field `mode`.
pub proof fn law_bounded_requests_in_json(
    v: JsonView,
    op: Seq<char>,
    name: Seq<char>,
    limit: u64,
    mode: Seq<char>,
)
    requires
        says(v, "op"@, JsonView::Str(op)),
        limits(v, limit),
    ensures
        ({
            let sem = op == "semaphore_acquire"@ || op == "sem_acquire"@ || op == "semaphore"@;
            let read = op == "rw_read_acquire"@ || op == "rwlock_read_acquire"@ || op
                == "read_acquire"@;
            let write = op == "rw_write_acquire"@ || op == "rwlock_write_acquire"@ || op
                == "write_acquire"@;
            let by_mode = (op == "rw_acquire"@ || op == "rwlock_acquire"@) && says(
                v,
                "mode"@,
                JsonView::Str(mode),
            );
            &&& sem && names(v, "semaphore"@, name) && limit <= u32::MAX ==> object_request(v)
                == Ok::<RequestView, JsonView>(
                RequestView::Semaphore { name, limit: limit as u32 },
            )
            &&& (read || (by_mode && is_read_word(mode))) && names(v, "rwlock"@, name) && limit
                <= u32::MAX ==> object_request(v) == Ok::<RequestView, JsonView>(
                RequestView::Read { name, limit: limit as u32 },
            )
            &&& (write || (by_mode && is_write_word(mode))) && names(v, "rwlock"@, name) && limit
                <= u32::MAX ==> object_request(v) == Ok::<RequestView, JsonView>(
                RequestView::Write { name, limit: limit as u32 },
            )
            &&& (op == "rw_acquire"@ || op == "rwlock_acquire"@) && wordless(v, "mode"@) ==> (
            object_request(v) matches Err(no) && is_refusal(no, "bad_limit"@))
            &&& by_mode && !is_read_word(mode) && !is_write_word(mode) ==> (object_request(
                v,
            ) matches Err(no) && is_refusal(no, "bad_limit"@))
            &&& (sem || read || write || by_mode) && limit > u32::MAX ==> (object_request(
                v,
            ) matches Err(no) && is_refusal(no, "bad_limit"@))
        }),
{
    lemma_operations_differ();
    lemma_modes_differ();
    law_fields_are_found(v, "op"@, JsonView::Str(op));
    law_fields_are_found(v, "mode"@, JsonView::Str(mode));
    lemma_wordless(v, "mode"@);
    lemma_named(v, "semaphore"@, name, limit);
    lemma_named(v, "rwlock"@, name, limit);
    lemma_refusal("bad_limit"@, "limit must be between 2 and 100"@);
}

/// **Lines that are not JSON, or name no operation, are refused.**
pub proof fn law_bad_lines_of_json(v: JsonView)
    ensures
        json_request(None) matches Err(no) && is_refusal(no, "bad_json"@),
        json_request(Some(v)) == object_request(v),
        wordless(v, "op"@) ==> (object_request(v) matches Err(no) && is_refusal(
            no,
            "bad_request"@,
        )),
{
    lemma_wordless(v, "op"@);
    lemma_refusal("bad_json"@, "malformed JSON line"@);
    lemma_refusal("bad_request"@, "unknown op"@);
}

// ---- lines of text ----------------------------------------------------------------------------------
/// A line with an operation and what stands behind it.
pub open spec fn line_of(op: Seq<char>, rest: Seq<char>) -> Seq<char> {
    op + " "@ + rest
}

/// The operation of a line.
proof fn lemma_line_of(op: Seq<char>, rest: Seq<char>)
    requires
        op.len() > 0,
        solid(op),
    ensures
        first_word(line_of(op, rest)) == (op, " "@ + rest),
        tight(rest) ==> trim(" "@ + rest) == rest,
{
    reveal_strlit(" ");
    assert(white(' '));
    assert(line_of(op, rest) =~= Seq::<char>::empty() + op + (" "@ + rest));
    law_first_word(Seq::empty(), op, " "@ + rest);
    if tight(rest) {
        law_trimming(" "@, rest, Seq::empty());
        assert(" "@ + rest + Seq::<char>::empty() =~= " "@ + rest);
    }
}

/// A limit and a name.
proof fn lemma_bounded_line(limit: u32, name: Seq<char>)
    requires
        tight(name),
    ensures
        crate::frontend::bounded_args(" "@ + (decimal(limit as nat) + " "@ + name)) == Some(
            (name, limit),
        ),
{
    reveal_strlit(" ");
    assert(white(' '));
    let digits = decimal(limit as nat);
    let args = digits + " "@ + name;
    crate::text::lemma_decimal_no_white(limit as nat);
    crate::text::law_decimal_reads_back(limit as nat, u32::MAX as nat);
    lemma_line_of(digits, name);
    assert(args == line_of(digits, name));
    if name.len() > 0 {
        assert(args[0] == digits[0]);
        assert(args.last() == name.last());
        law_trimming(" "@, args, Seq::empty());
        assert(" "@ + args + Seq::<char>::empty() =~= " "@ + args);
    } else {
        assert(args =~= digits + " "@);
        assert(digits[0] == digits[0] && digits[digits.len() - 1] == digits.last());
        law_trimming(" "@, digits, " "@);
        assert(" "@ + digits + " "@ =~= " "@ + args);
        law_first_word(Seq::empty(), digits, Seq::empty());
        assert(Seq::<char>::empty() + digits + Seq::<char>::empty() =~= digits);
        law_trimming(Seq::empty(), Seq::empty(), Seq::empty());
        assert(name =~= Seq::<char>::empty());
    }
}

/// **Requests in text.** The first word says what is asked for, by any of its names and in
/// either case. Behind it stands the lock; or the limit and the name; or, for a release, the
/// holder token, before which the lock may be named.
pub proof fn law_requests_in_text(
    op: Seq<char>,
    lock: Seq<char>,
    limit: u32,
    name: Seq<char>,
    holder: Seq<char>,
)
    requires
        op.len() > 0,
        solid(op),
        tight(lock),
        tight(name),
        holder.len() > 0,
        solid(holder),
    ensures
        ({
            let w = lower(op);
            let bounded = line_of(op, decimal(limit as nat) + " "@ + name);
            &&& w == "acquire"@ ==> text_request(line_of(op, lock)) == Ok::<RequestView, Seq<char>>(
                RequestView::Acquire { lock },
            )
            &&& w == "semacquire"@ || w == "semaphore"@ || w == "acquire-semaphore"@
                ==> text_request(bounded) == Ok::<RequestView, Seq<char>>(
                RequestView::Semaphore { name, limit },
            )
            &&& w == "racquire"@ || w == "rlock"@ || w == "readlock"@ || w == "rwread"@
                ==> text_request(bounded) == Ok::<RequestView, Seq<char>>(
                RequestView::Read { name, limit },
            )
            &&& w == "wacquire"@ || w == "wlock"@ || w == "writelock"@ || w == "rwwrite"@
                ==> text_request(bounded) == Ok::<RequestView, Seq<char>>(
                RequestView::Write { name, limit },
            )
            &&& w == "release"@ ==> text_request(line_of(op, holder)) == Ok::<
                RequestView,
                Seq<char>,
            >(RequestView::Release { holder })
            &&& w == "release"@ && lock.len() > 0 && solid(lock) ==> text_request(
                line_of(op, lock + " "@ + holder),
            ) == Ok::<RequestView, Seq<char>>(RequestView::Release { holder })
        }),
{
    lemma_commands_differ();
    reveal_strlit(" ");
    assert(white(' '));
    lemma_line_of(op, lock);
    lemma_line_of(op, decimal(limit as nat) + " "@ + name);
    lemma_line_of(op, holder);
    lemma_line_of(op, lock + " "@ + holder);
    lemma_bounded_line(limit, name);
    assert(holder[0] == holder[0] && holder[holder.len() - 1] == holder.last());
    law_first_word(Seq::empty(), holder, Seq::empty());
    assert(Seq::<char>::empty() + holder + Seq::<char>::empty() =~= holder);
    law_trimming(Seq::empty(), Seq::empty(), Seq::empty());
    if lock.len() > 0 && solid(lock) {
        let args = lock + " "@ + holder;
        assert(args[0] == lock[0]);
        assert(args.last() == holder.last());
        law_trimming(" "@, args, Seq::empty());
        assert(" "@ + args + Seq::<char>::empty() =~= " "@ + args);
        lemma_line_of(lock, holder);
        assert(args == line_of(lock, holder));
    }
}

/// **Bad lines of text are refused.** A limit that is no number, or too great, is refused as
/// such; a word that is no operation is answered with the usage.
pub proof fn law_bad_lines_of_text(op: Seq<char>, bad: Seq<char>, rest: Seq<char>)
    requires
        op.len() > 0,
        solid(op),
        bad.len() > 0,
        solid(bad),
        tight(rest),
        rest.len() > 0,
    ensures
        ({
            let w = lower(op);
            &&& (w == "semacquire"@ || w == "semaphore"@ || w == "acquire-semaphore"@ || w
                == "racquire"@ || w == "rlock"@ || w == "readlock"@ || w == "rwread"@ || w
                == "wacquire"@ || w == "wlock"@ || w == "writelock"@ || w == "rwwrite"@)
                && parse_number(bad, u32::MAX as nat) is None ==> text_request(
                line_of(op, bad + " "@ + rest),
            ) == Err::<RequestView, Seq<char>>(
                "ERROR bad_limit limit must be between 2 and 100"@,
            )
            &&& w != "acquire"@ && w != "semacquire"@ && w != "semaphore"@ && w
                != "acquire-semaphore"@ && w != "racquire"@ && w != "rlock"@ && w != "readlock"@
                && w != "rwread"@ && w != "wacquire"@ && w != "wlock"@ && w != "writelock"@ && w
                != "rwwrite"@ && w != "release"@ ==> text_request(line_of(op, rest)) == Err::<
                RequestView,
                Seq<char>,
            >(usage_text())
        }),
{
    lemma_commands_differ();
    reveal_strlit(" ");
    assert(white(' '));
    reveal_strlit("ERROR ");
    reveal_strlit("bad_limit");
    reveal_strlit("limit must be between 2 and 100");
    reveal_strlit("ERROR bad_limit limit must be between 2 and 100");
    assert(error_text(ClientError::BadLimit)
        =~= "ERROR bad_limit limit must be between 2 and 100"@);
    let args = bad + " "@ + rest;
    lemma_line_of(op, args);
    lemma_line_of(op, rest);
    assert(args[0] == bad[0]);
    assert(args.last() == rest.last());
    law_trimming(" "@, args, Seq::empty());
    assert(" "@ + args + Seq::<char>::empty() =~= " "@ + args);
    lemma_line_of(bad, rest);
    assert(args == line_of(bad, rest));
}

/// **Answers in text** say what was acquired or released, with everything that belongs to it,
/// or the name and the message of the error.
pub proof fn law_answers_in_text(
    a: AcquireView,
    s: SemaphoreAcquireView,
    r: RwAcquireView,
    e: ClientError,
)
    ensures
        text_reply(Err(e)) == "ERROR "@ + e.name() + " "@ + e.message(),
        text_reply(Ok(AnswerView::Lock(a))) == "ACQUIRED "@ + a.lock + " fence="@ + decimal(
            a.fence as nat,
        ) + " holder="@ + a.holder,
        text_reply(Ok(AnswerView::Semaphore(s))) == "SEMACQUIRED "@ + s.semaphore + " limit="@
            + decimal(s.limit as nat) + " permit="@ + decimal(s.permit as nat) + " fence="@
            + decimal(s.fence as nat) + " holder="@ + s.holder,
        r.mode is Read ==> (r.permit matches Some(p) ==> text_reply(Ok(AnswerView::Rw(r)))
            == "RWACQUIRED "@ + r.rwlock + " mode="@ + "read"@ + " limit="@ + decimal(
            r.limit as nat,
        ) + " permit="@ + decimal(p as nat) + " fence="@ + decimal(r.fence as nat) + " holder="@
            + r.holder),
        r.mode is Write ==> text_reply(Ok(AnswerView::Rw(r))) == "RWACQUIRED "@ + r.rwlock
            + " mode="@ + "write"@ + " limit="@ + decimal(r.limit as nat) + " fence="@ + decimal(
            r.fence as nat,
        ) + " holder="@ + r.holder,
{
    let head = "RWACQUIRED "@ + r.rwlock + " mode="@ + r.mode.name() + " limit="@ + decimal(
        r.limit as nat,
    );
    let fence = decimal(r.fence as nat);
    assert(head + (" fence="@ + fence + " holder="@ + r.holder) =~= head + " fence="@ + fence
        + " holder="@ + r.holder);
    if let Some(p) = r.permit {
        let more = head + " permit="@ + decimal(p as nat);
        assert(more + (" fence="@ + fence + " holder="@ + r.holder) =~= more + " fence="@ + fence
            + " holder="@ + r.holder);
    }
}

/// **Releases in text** say what was released.
pub proof fn law_releases_in_text(lock: Seq<char>, name: Seq<char>, limit: u32, permit: u32)
    ensures
        text_reply(
            Ok(
                AnswerView::Release(
                    ReleaseView {
                        lock,
                        semaphore: None,
                        limit: None,
                        permit: None,
                        rwlock: None,
                        mode: None,
                    },
                ),
            ),
        ) == "RELEASED "@ + lock,
        text_reply(
            Ok(
                AnswerView::Release(
                    ReleaseView {
                        lock,
                        semaphore: Some(name),
                        limit: Some(limit),
                        permit: Some(permit),
                        rwlock: None,
                        mode: None,
                    },
                ),
            ),
        ) == "SEMRELEASED "@ + name + " limit="@ + decimal(limit as nat) + " permit="@ + decimal(
            permit as nat,
        ),
        text_reply(
            Ok(
                AnswerView::Release(
                    ReleaseView {
                        lock,
                        semaphore: None,
                        limit: Some(limit),
                        permit: Some(permit),
                        rwlock: Some(name),
                        mode: Some(RwMode::Read),
                    },
                ),
            ),
        ) == "RWRELEASED "@ + name + " mode="@ + "read"@ + " limit="@ + decimal(limit as nat)
            + " permit="@ + decimal(permit as nat),
        text_reply(
            Ok(
                AnswerView::Release(
                    ReleaseView {
                        lock,
                        semaphore: None,
                        limit: Some(limit),
                        permit: None,
                        rwlock: Some(name),
                        mode: Some(RwMode::Write),
                    },
                ),
            ),
        ) == "RWRELEASED "@ + name + " mode="@ + "write"@ + " limit="@ + decimal(limit as nat),
{
}

// ---- the rest ---------------------------------------------------------------------------------------
/// **Every request starts its own call.**
pub proof fn law_requests_start_calls(
    c: LockClientView,
    name: Seq<char>,
    limit: u32,
    holder: Seq<char>,
)
    ensures
        started(c, RequestView::Acquire { lock: name }) == c.acquire(name),
        started(c, RequestView::Semaphore { name, limit }) == c.acquire_semaphore(name, limit),
        started(c, RequestView::Read { name, limit }) == c.acquire_read(name, limit),
        started(c, RequestView::Write { name, limit }) == c.acquire_write(name, limit),
        started(c, RequestView::Release { holder }) == c.release(holder),
        started(c, RequestView::ReleaseLock { lock: name, holder }) == c.release_lock(
            name,
            holder,
        ),
        started(c, RequestView::ReleaseRw { name, holder }) == c.release_rw_lock(name, holder),
{
}

/// **Lines end at the first newline.** A line is read up to its newline, that included, or as
/// far as there are bytes; but never more than the bound.
pub proof fn law_lines_end_at_the_newline(line: Seq<u8>, rest: Seq<u8>, max: nat)
    requires
        forall|i: int| 0 <= i < line.len() ==> #[trigger] line[i] != 10,
    ensures
        line.len() < max ==> line_len(line + seq![10u8] + rest, max) == line.len() + 1,
        line.len() >= max ==> line_len(line + rest, max) == max,
        line.len() < max ==> line_len(line, max) == line.len(),
    decreases line.len(),
{
    let all = line + seq![10u8] + rest;
    let both = line + rest;
    if line.len() == 0 {
        assert(all[0] == 10);
    } else {
        let tail = line.skip(1);
        assert forall|i: int| 0 <= i < tail.len() implies #[trigger] tail[i] != 10 by {
            assert(tail[i] == line[i + 1]);
        }
        if max > 0 {
            law_lines_end_at_the_newline(tail, rest, (max - 1) as nat);
            assert(all[0] == line[0] && both[0] == line[0]);
            assert(all.skip(1) =~= tail + seq![10u8] + rest);
            assert(both.skip(1) =~= tail + rest);
        }
    }
}

/// **Bounds of the front.** Lines have at most 16 KiB, at most 1024 clients are connected, and
/// a silent client is dropped after thirty seconds. What a client reads first, and what it
/// reads when it asks for something else, lists what it may ask for.
pub proof fn law_bounds_of_the_front()
    ensures
        MAX_LINE == 16 * 1024,
        MAX_CLIENT_CONNECTIONS == 1024,
        CLIENT_IO_TIMEOUT_MS == 30 * 1000,
        banner_text()
            == "# live-mutex-mills client API: ACQUIRE <lock> | SEMACQUIRE <limit> <name> | RACQUIRE <limit> <name> | WACQUIRE <limit> <name> | RELEASE <holder> | JSON lines"@,
        usage_text()
            == "ERROR bad_request use ACQUIRE <lock> | SEMACQUIRE <limit> <name> | RACQUIRE <limit> <name> | WACQUIRE <limit> <name> | RELEASE <holder>"@,
{
}

} // verus!
