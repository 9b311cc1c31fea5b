//! How clients talk to a node: lines of text, lines of JSON, and HTTP.
//!
//! Each protocol turns what a client sends into a [`Request`] or answers at
//! once, and turns the outcome of a request into what the client reads.
use vstd::prelude::*;
use vstd::utf8::*;

use crate::client_api::{
    opt_view, result_view, stage_wf, Answer, AnswerView, Call, CallView, ClientError,
    ClientRelease, ClientRwAcquire, LockClient, LockClientView, ReleaseView, RwAcquireView, RwMode,
};
use crate::json::{
    field_views, json_text, json_value, parse_json, push_field, render_json, Json, JsonView,
};
use crate::text::{
    char_views, chars_are, chars_of, decimal, decimal_chars, find_white, lower, parse_number,
    parse_unsigned, push_chars, push_str, split_words, str_eq, string_from_utf8, string_of,
    sub_chars, to_lower, trim, trim_chars, trim_start, trim_start_chars, word_end, words,
};
use crate::types::LockId;

verus! {

/// How many bytes a line from a client may have.
pub const MAX_LINE: usize = 16384;

/// How many bytes the body of an HTTP request may have.
pub const MAX_HTTP_BODY: usize = 1048576;

/// How many headers an HTTP request may have.
pub const MAX_HTTP_HEADERS: usize = 100;

/// How many clients may be connected to a node at one time.
pub const MAX_CLIENT_CONNECTIONS: u64 = 1024;

/// How many milliseconds a client may take to send or to read.
pub const CLIENT_IO_TIMEOUT_MS: u64 = 30000;

// ---- connections and lines ------------------------------------------------------------------
/// Counts the clients that are connected.
#[derive(Debug)]
pub struct ConnectionCount {
    active: u64,
}

impl View for ConnectionCount {
    type V = nat;

    closed spec fn view(&self) -> nat {
        self.active as nat
    }
}

impl ConnectionCount {
    /// Nobody is connected.
    pub fn new() -> (c: ConnectionCount)
        ensures
            c@ == 0,
    {
        ConnectionCount { active: 0 }
    }

    /// How many clients are connected.
    pub fn active(&self) -> (n: u64)
        ensures
            n == self@,
    {
        self.active
    }

    /// Count one more client, if there is room for it.
    pub fn try_acquire(&mut self) -> (ok: bool)
        ensures
            ok == (old(self)@ < MAX_CLIENT_CONNECTIONS),
            final(self)@ == if ok {
                old(self)@ + 1
            } else {
                old(self)@
            },
    {
        if self.active >= MAX_CLIENT_CONNECTIONS {
            false
        } else {
            self.active = self.active + 1;
            true
        }
    }

    /// A client that was counted has gone.
    pub fn release(&mut self)
        requires
            old(self)@ > 0,
        ensures
            final(self)@ == old(self)@ - 1,
    {
        self.active = self.active - 1;
    }
}

/// Why no line could be read.
#[derive(Clone, Copy, Debug, PartialEq, Eq, Structural)]
pub enum LineError {
    /// The line is longer than allowed.
    TooLong,
    /// The line is not UTF-8.
    NotUtf8,
}

/// Bytes that have been received and not been read yet.
#[derive(Debug)]
pub struct LineReader {
    bytes: Vec<u8>,
    pos: usize,
}

impl View for LineReader {
    type V = Seq<u8>;

    closed spec fn view(&self) -> Seq<u8> {
        self.bytes@.skip(self.pos as int)
    }
}

/// How many bytes the first line has, its end included; at most `max`.
pub open spec fn line_len(bytes: Seq<u8>, max: nat) -> nat
    decreases bytes.len(),
{
    if bytes.len() == 0 || max == 0 {
        0
    } else if bytes[0] == 10 {
        1
    } else {
        1 + line_len(bytes.skip(1), (max - 1) as nat)
    }
}

impl LineReader {
    /// What is to be read.
    pub closed spec fn wf(&self) -> bool {
        self.pos <= self.bytes@.len()
    }

    /// A reader of these bytes.
    pub fn new(bytes: Vec<u8>) -> (r: LineReader)
        ensures
            r.wf(),
            r@ == bytes@,
    {
        let r = LineReader { bytes, pos: 0 };
        assert(r@ =~= bytes@);
        r
    }
}

/// Read one line and append it to `buf`. A line of more than `max` bytes is an
/// error, so that no line takes more memory than that. Returns how many bytes
/// were read; none at the end.
pub fn read_line_limited(reader: &mut LineReader, buf: &mut String, max: usize) -> (r: Result<
    usize,
    LineError,
>)
    requires
        old(reader).wf(),
        max < usize::MAX,
    ensures
        final(reader).wf(),
        ({
            let n = line_len(old(reader)@, (max + 1) as nat);
            let line = old(reader)@.take(n as int);
            &&& final(reader)@ == old(reader)@.skip(n as int)
            &&& match r {
                Ok(len) => {
                    &&& len == n
                    &&& n <= max
                    &&& valid_utf8(line)
                    &&& final(buf)@ == old(buf)@ + decode_utf8(line)
                },
                Err(LineError::NotUtf8) => !valid_utf8(line) && final(buf)@ == old(buf)@,
                Err(LineError::TooLong) => valid_utf8(line) && n > max && final(buf)@ == old(buf)@
                    + decode_utf8(line),
            }
        }),
{
    let ghost all = reader@;
    let ghost start = reader.pos as int;
    let ghost received = reader.bytes@;
    let mut line: Vec<u8> = Vec::new();
    let mut left: usize = max + 1;
    let mut done = false;
    assert(all.take(0) =~= Seq::empty());
    assert(all.skip(0) =~= all);
    while !done && left > 0 && reader.pos < reader.bytes.len()
        invariant
            reader.wf(),
            reader.bytes@ == received,
            all == received.skip(start),
            0 <= start <= received.len(),
            reader.pos == start + line@.len(),
            max < usize::MAX,
            line@.len() + left == max + 1,
            line@.len() <= all.len(),
            reader@ == all.skip(line@.len() as int),
            line@ == all.take(line@.len() as int),
            !done ==> line_len(all, (max + 1) as nat) == line@.len() + line_len(
                reader@,
                left as nat,
            ),
            done ==> line_len(all, (max + 1) as nat) == line@.len(),
        decreases left,
    {
        let b = reader.bytes[reader.pos];
        let ghost n = line@.len() as int;
        proof {
            assert(reader@[0] == b);
            assert(all[n] == b);
        }
        line.push(b);
        reader.pos = reader.pos + 1;
        left = left - 1;
        proof {
            assert(reader@ =~= all.skip(n + 1));
            assert(all.skip(n).skip(1) =~= all.skip(n + 1));
            assert(line@ =~= all.take(n + 1));
        }
        if b == 10 {
            done = true;
        }
    }
    assert(line_len(all, (max + 1) as nat) == line@.len());
    let n = line.len();
    let ghost bytes = line@;
    match string_from_utf8(line) {
        None => Err(LineError::NotUtf8),
        Some(text) => {
            let mut v = chars_of(buf.as_str());
            push_str(&mut v, text.as_str());
            *buf = string_of(&v);
            if n > max {
                Err(LineError::TooLong)
            } else {
                Ok(n)
            }
        },
    }
}

// ---- requests --------------------------------------------------------------------------------
/// What a client asks for.
#[derive(Clone, Debug, PartialEq, Eq)]
pub enum Request {
    Acquire { lock: LockId },
    Semaphore { name: String, limit: u32 },
    Read { name: String, limit: u32 },
    Write { name: String, limit: u32 },
    Release { holder: String },
    ReleaseLock { lock: LockId, holder: String },
    ReleaseRw { name: String, holder: String },
}

/// The content of a [`Request`].
pub enum RequestView {
    Acquire { lock: Seq<char> },
    Semaphore { name: Seq<char>, limit: u32 },
    Read { name: Seq<char>, limit: u32 },
    Write { name: Seq<char>, limit: u32 },
    Release { holder: Seq<char> },
    ReleaseLock { lock: Seq<char>, holder: Seq<char> },
    ReleaseRw { name: Seq<char>, holder: Seq<char> },
}

impl View for Request {
    type V = RequestView;

    open spec fn view(&self) -> RequestView {
        match *self {
            Request::Acquire { lock } => RequestView::Acquire { lock: lock@ },
            Request::Semaphore { name, limit } => RequestView::Semaphore { name: name@, limit },
            Request::Read { name, limit } => RequestView::Read { name: name@, limit },
            Request::Write { name, limit } => RequestView::Write { name: name@, limit },
            Request::Release { holder } => RequestView::Release { holder: holder@ },
            Request::ReleaseLock { lock, holder } => RequestView::ReleaseLock {
                lock: lock@,
                holder: holder@,
            },
            Request::ReleaseRw { name, holder } => RequestView::ReleaseRw {
                name: name@,
                holder: holder@,
            },
        }
    }
}

/// The call that a request starts.
pub open spec fn started(c: LockClientView, r: RequestView) -> (LockClientView, CallView) {
    match r {
        RequestView::Acquire { lock } => c.acquire(lock),
        RequestView::Semaphore { name, limit } => c.acquire_semaphore(name, limit),
        RequestView::Read { name, limit } => c.acquire_read(name, limit),
        RequestView::Write { name, limit } => c.acquire_write(name, limit),
        RequestView::Release { holder } => c.release(holder),
        RequestView::ReleaseLock { lock, holder } => c.release_lock(lock, holder),
        RequestView::ReleaseRw { name, holder } => c.release_rw_lock(name, holder),
    }
}

/// Start the call for a request.
pub fn start(client: &mut LockClient, request: Request) -> (call: Call)
    requires
        old(client).wf(),
    ensures
        final(client).wf(),
        stage_wf(call@.stage),
        (final(client)@, call@) == started(old(client)@, request@),
{
    match request {
        Request::Acquire { lock } => client.acquire(lock),
        Request::Semaphore { name, limit } => client.acquire_semaphore(name, limit),
        Request::Read { name, limit } => client.acquire_read(name, limit),
        Request::Write { name, limit } => client.acquire_write(name, limit),
        Request::Release { holder } => client.release(holder),
        Request::ReleaseLock { lock, holder } => client.release_lock(lock, holder),
        Request::ReleaseRw { name, holder } => client.release_rw_lock(name, holder),
    }
}

// ---- lines of text -----------------------------------------------------------------------------
/// The first word of a text, and what follows it.
pub open spec fn first_word(s: Seq<char>) -> (Seq<char>, Seq<char>) {
    let t = trim_start(s);
    (t.take(word_end(t)), t.skip(word_end(t)))
}

/// The first word of a text, and what follows it.
fn first_word_chars(v: &Vec<char>) -> (r: (Vec<char>, Vec<char>))
    ensures
        (r.0@, r.1@) == first_word(v@),
{
    let t = trim_start_chars(v);
    let i = find_white(&t);
    let word = sub_chars(&t, 0, i);
    let rest = sub_chars(&t, i, t.len());
    assert(word@ =~= t@.take(i as int));
    assert(rest@ =~= t@.skip(i as int));
    (word, rest)
}

/// The first word of a text, and what follows it.
pub fn split_word(s: &str) -> (r: (String, String))
    ensures
        (r.0@, r.1@) == first_word(s@),
{
    let (word, rest) = first_word_chars(&chars_of(s));
    (string_of(&word), string_of(&rest))
}

/// The line for an error.
pub open spec fn error_text(e: ClientError) -> Seq<char> {
    "ERROR "@ + e.name() + " "@ + e.message()
}

/// The line for a client that asks for something else.
pub open spec fn usage_text() -> Seq<char> {
    "ERROR bad_request use ACQUIRE <lock> | SEMACQUIRE <limit> <name> | RACQUIRE <limit> <name> | WACQUIRE <limit> <name> | RELEASE <holder>"@
}

/// The line that a client reads first.
pub open spec fn banner_text() -> Seq<char> {
    "# live-mutex-mills client API: ACQUIRE <lock> | SEMACQUIRE <limit> <name> | RACQUIRE <limit> <name> | WACQUIRE <limit> <name> | RELEASE <holder> | JSON lines"@
}

/// The line that a client reads first.
pub fn banner() -> (s: &'static str)
    ensures
        s@ == banner_text(),
{
    "# live-mutex-mills client API: ACQUIRE <lock> | SEMACQUIRE <limit> <name> | RACQUIRE <limit> <name> | WACQUIRE <limit> <name> | RELEASE <holder> | JSON lines"
}

/// The operations of the text protocol.
pub enum TextOp {
    Acquire,
    Semaphore,
    Read,
    Write,
    Release,
    Other,
}

/// The operation that a word names.
pub open spec fn text_op(word: Seq<char>) -> TextOp {
    let w = lower(word);
    if w == "acquire"@ {
        TextOp::Acquire
    } else if w == "semacquire"@ || w == "semaphore"@ || w == "acquire-semaphore"@ {
        TextOp::Semaphore
    } else if w == "racquire"@ || w == "rlock"@ || w == "readlock"@ || w == "rwread"@ {
        TextOp::Read
    } else if w == "wacquire"@ || w == "wlock"@ || w == "writelock"@ || w == "rwwrite"@ {
        TextOp::Write
    } else if w == "release"@ {
        TextOp::Release
    } else {
        TextOp::Other
    }
}

/// The limit and the name behind an operation.
pub open spec fn bounded_args(rest: Seq<char>) -> Option<(Seq<char>, u32)> {
    let (limit, name) = first_word(trim(rest));
    match parse_number(limit, u32::MAX as nat) {
        Some(n) => Some((trim(name), n as u32)),
        None => None,
    }
}

/// The holder token behind a release: the last of what is there, so that a lock
/// may be named before it.
pub open spec fn holder_arg(rest: Seq<char>) -> Seq<char> {
    let (first, more) = first_word(trim(rest));
    if trim(more).len() == 0 {
        first
    } else {
        trim(more)
    }
}

/// What a line of text asks for, or the line to answer at once.
pub open spec fn text_request(line: Seq<char>) -> Result<RequestView, Seq<char>> {
    let (op, rest) = first_word(line);
    match text_op(op) {
        TextOp::Acquire => Ok(RequestView::Acquire { lock: trim(rest) }),
        TextOp::Semaphore => match bounded_args(rest) {
            Some((name, limit)) => Ok(RequestView::Semaphore { name, limit }),
            None => Err(error_text(ClientError::BadLimit)),
        },
        TextOp::Read => match bounded_args(rest) {
            Some((name, limit)) => Ok(RequestView::Read { name, limit }),
            None => Err(error_text(ClientError::BadLimit)),
        },
        TextOp::Write => match bounded_args(rest) {
            Some((name, limit)) => Ok(RequestView::Write { name, limit }),
            None => Err(error_text(ClientError::BadLimit)),
        },
        TextOp::Release => Ok(RequestView::Release { holder: holder_arg(rest) }),
        TextOp::Other => Err(usage_text()),
    }
}

/// The operation that a word names.
fn find_text_op(word: &Vec<char>) -> (op: TextOp)
    ensures
        op == text_op(word@),
{
    let w = to_lower(string_of(word).as_str());
    if chars_are(&w, "acquire") {
        TextOp::Acquire
    } else if chars_are(&w, "semacquire") || chars_are(&w, "semaphore") || chars_are(
        &w,
        "acquire-semaphore",
    ) {
        TextOp::Semaphore
    } else if chars_are(&w, "racquire") || chars_are(&w, "rlock") || chars_are(&w, "readlock")
        || chars_are(&w, "rwread") {
        TextOp::Read
    } else if chars_are(&w, "wacquire") || chars_are(&w, "wlock") || chars_are(&w, "writelock")
        || chars_are(&w, "rwwrite") {
        TextOp::Write
    } else if chars_are(&w, "release") {
        TextOp::Release
    } else {
        TextOp::Other
    }
}

/// The limit and the name behind an operation.
fn find_bounded_args(rest: &Vec<char>) -> (r: Option<(String, u32)>)
    ensures
        match r {
            Some((name, limit)) => bounded_args(rest@) == Some((name@, limit)),
            None => bounded_args(rest@) is None,
        },
{
    let (limit, name) = first_word_chars(&trim_chars(rest));
    match parse_unsigned(&limit, u32::MAX as u64) {
        Some(n) => Some((string_of(&trim_chars(&name)), n as u32)),
        None => None,
    }
}

/// The holder token behind a release.
fn find_holder_arg(rest: &Vec<char>) -> (s: String)
    ensures
        s@ == holder_arg(rest@),
{
    let (first, more) = first_word_chars(&trim_chars(rest));
    let more = trim_chars(&more);
    if more.len() == 0 {
        string_of(&first)
    } else {
        string_of(&more)
    }
}

/// The line for an error.
fn say_error(e: ClientError) -> (s: String)
    ensures
        s@ == error_text(e),
{
    let mut v = chars_of("ERROR ");
    push_str(&mut v, e.code());
    push_str(&mut v, " ");
    push_str(&mut v, e.to_string().as_str());
    string_of(&v)
}

/// What a line of text asks for, or the line to answer at once.
pub fn handle_tcp_text(line: &str) -> (r: Result<Request, String>)
    ensures
        match r {
            Ok(request) => text_request(line@) == Ok::<RequestView, Seq<char>>(request@),
            Err(reply) => text_request(line@) == Err::<RequestView, Seq<char>>(reply@),
        },
{
    let (op, rest) = first_word_chars(&chars_of(line));
    match find_text_op(&op) {
        TextOp::Acquire => Ok(Request::Acquire { lock: string_of(&trim_chars(&rest)) }),
        TextOp::Semaphore => match find_bounded_args(&rest) {
            Some((name, limit)) => Ok(Request::Semaphore { name, limit }),
            None => Err(say_error(ClientError::BadLimit)),
        },
        TextOp::Read => match find_bounded_args(&rest) {
            Some((name, limit)) => Ok(Request::Read { name, limit }),
            None => Err(say_error(ClientError::BadLimit)),
        },
        TextOp::Write => match find_bounded_args(&rest) {
            Some((name, limit)) => Ok(Request::Write { name, limit }),
            None => Err(say_error(ClientError::BadLimit)),
        },
        TextOp::Release => Ok(Request::Release { holder: find_holder_arg(&rest) }),
        TextOp::Other => Err(
            "ERROR bad_request use ACQUIRE <lock> | SEMACQUIRE <limit> <name> | RACQUIRE <limit> <name> | WACQUIRE <limit> <name> | RELEASE <holder>".to_owned(),
        ),
    }
}

/// The line for a side of an RW lock that has been acquired.
pub open spec fn rw_acquired_text(a: RwAcquireView) -> Seq<char> {
    let head = "RWACQUIRED "@ + a.rwlock + " mode="@ + a.mode.name() + " limit="@ + decimal(
        a.limit as nat,
    );
    let tail = " fence="@ + decimal(a.fence as nat) + " holder="@ + a.holder;
    if a.mode is Read && a.permit is Some {
        head + " permit="@ + decimal(a.permit->0 as nat) + tail
    } else {
        head + tail
    }
}

/// The line for what has been released.
pub open spec fn released_text(r: ReleaseView) -> Seq<char> {
    if r.rwlock is Some && r.mode is Some && r.limit is Some {
        let head = "RWRELEASED "@ + r.rwlock->0 + " mode="@ + r.mode->0.name() + " limit="@
            + decimal(r.limit->0 as nat);
        if r.mode->0 is Read && r.permit is Some {
            head + " permit="@ + decimal(r.permit->0 as nat)
        } else {
            head
        }
    } else if r.semaphore is Some && r.limit is Some && r.permit is Some {
        "SEMRELEASED "@ + r.semaphore->0 + " limit="@ + decimal(r.limit->0 as nat) + " permit="@
            + decimal(r.permit->0 as nat)
    } else {
        "RELEASED "@ + r.lock
    }
}

/// The line for the outcome of a request.
pub open spec fn text_reply(outcome: Result<AnswerView, ClientError>) -> Seq<char> {
    match outcome {
        Err(e) => error_text(e),
        Ok(AnswerView::Lock(a)) => "ACQUIRED "@ + a.lock + " fence="@ + decimal(a.fence as nat)
            + " holder="@ + a.holder,
        Ok(AnswerView::Semaphore(a)) => "SEMACQUIRED "@ + a.semaphore + " limit="@ + decimal(
            a.limit as nat,
        ) + " permit="@ + decimal(a.permit as nat) + " fence="@ + decimal(a.fence as nat)
            + " holder="@ + a.holder,
        Ok(AnswerView::Rw(a)) => rw_acquired_text(a),
        Ok(AnswerView::Release(r)) => released_text(r),
    }
}

/// Append a label and a number.
fn push_number(v: &mut Vec<char>, label: &str, n: u64)
    ensures
        final(v)@ == old(v)@ + label@ + decimal(n as nat),
{
    push_str(v, label);
    push_chars(v, &decimal_chars(n));
}

/// The line for a side of an RW lock that has been acquired.
fn say_rw_acquired(a: &ClientRwAcquire) -> (s: String)
    ensures
        s@ == rw_acquired_text(a@),
{
    let mut v = chars_of("RWACQUIRED ");
    push_str(&mut v, a.rwlock.as_str());
    push_str(&mut v, " mode=");
    push_str(&mut v, a.mode.as_str());
    push_number(&mut v, " limit=", a.limit as u64);
    let ghost head = v@;
    let read = match a.mode {
        RwMode::Read => true,
        RwMode::Write => false,
    };
    if read {
        if let Some(permit) = a.permit {
            push_number(&mut v, " permit=", permit as u64);
        }
    }
    push_number(&mut v, " fence=", a.fence);
    push_str(&mut v, " holder=");
    push_str(&mut v, a.holder.as_str());
    let s = string_of(&v);
    proof {
        assert(s@ =~= rw_acquired_text(a@));
    }
    s
}

/// The line for what has been released.
pub fn say_released(r: &ClientRelease) -> (s: String)
    ensures
        s@ == released_text(r@),
{
    match (&r.rwlock, r.mode, r.limit) {
        (Some(name), Some(mode), Some(limit)) => {
            let mut v = chars_of("RWRELEASED ");
            push_str(&mut v, name.as_str());
            push_str(&mut v, " mode=");
            push_str(&mut v, mode.as_str());
            push_number(&mut v, " limit=", limit as u64);
            let read = match mode {
                RwMode::Read => true,
                RwMode::Write => false,
            };
            if read {
                if let Some(permit) = r.permit {
                    push_number(&mut v, " permit=", permit as u64);
                }
            }
            return string_of(&v);
        },
        _ => {},
    }
    match (&r.semaphore, r.limit, r.permit) {
        (Some(name), Some(limit), Some(permit)) => {
            let mut v = chars_of("SEMRELEASED ");
            push_str(&mut v, name.as_str());
            push_number(&mut v, " limit=", limit as u64);
            push_number(&mut v, " permit=", permit as u64);
            string_of(&v)
        },
        _ => {
            let mut v = chars_of("RELEASED ");
            push_str(&mut v, r.lock.as_str());
            string_of(&v)
        },
    }
}

/// The line for the outcome of a request.
pub fn say_outcome(outcome: &Result<Answer, ClientError>) -> (s: String)
    ensures
        s@ == text_reply(result_view(*outcome)),
{
    match outcome {
        Err(e) => say_error(*e),
        Ok(Answer::Lock(a)) => {
            let mut v = chars_of("ACQUIRED ");
            push_str(&mut v, a.lock.as_str());
            push_number(&mut v, " fence=", a.fence);
            push_str(&mut v, " holder=");
            push_str(&mut v, a.holder.as_str());
            string_of(&v)
        },
        Ok(Answer::Semaphore(a)) => {
            let mut v = chars_of("SEMACQUIRED ");
            push_str(&mut v, a.semaphore.as_str());
            push_number(&mut v, " limit=", a.limit as u64);
            push_number(&mut v, " permit=", a.permit as u64);
            push_number(&mut v, " fence=", a.fence);
            push_str(&mut v, " holder=");
            push_str(&mut v, a.holder.as_str());
            string_of(&v)
        },
        Ok(Answer::Rw(a)) => say_rw_acquired(a),
        Ok(Answer::Release(r)) => say_released(r),
    }
}

// ---- lines of JSON -----------------------------------------------------------------------------
/// An object that says no, with a code and a message.
pub open spec fn refusal(code: Seq<char>, message: Seq<char>) -> JsonView {
    JsonView::Object(
        seq![
            ("ok"@, JsonView::Bool(false)),
            ("error"@, JsonView::Str(code)),
            ("message"@, JsonView::Str(message)),
        ],
    )
}

/// The object for an error.
pub open spec fn error_json(e: ClientError) -> JsonView {
    refusal(e.name(), e.message())
}

/// The object for a side of an RW lock that has been acquired.
pub open spec fn rw_acquired_json(a: RwAcquireView) -> JsonView {
    let head = seq![
        ("ok"@, JsonView::Bool(true)),
        ("rwlock"@, JsonView::Str(a.rwlock)),
        ("mode"@, JsonView::Str(a.mode.name())),
        ("limit"@, JsonView::Number(a.limit as u64)),
    ];
    let tail = seq![
        ("fence"@, JsonView::Number(a.fence)),
        ("holder"@, JsonView::Str(a.holder)),
    ];
    JsonView::Object(
        match a.permit {
            Some(p) => head.push(("permit"@, JsonView::Number(p as u64))) + tail,
            None => head + tail,
        },
    )
}

/// The object for what has been released.
pub open spec fn released_json(r: ReleaseView) -> JsonView {
    if r.rwlock is Some && r.mode is Some && r.limit is Some {
        let head = seq![
            ("ok"@, JsonView::Bool(true)),
            ("rwlock"@, JsonView::Str(r.rwlock->0)),
            ("mode"@, JsonView::Str(r.mode->0.name())),
            ("limit"@, JsonView::Number(r.limit->0 as u64)),
        ];
        JsonView::Object(
            match r.permit {
                Some(p) => head.push(("permit"@, JsonView::Number(p as u64))),
                None => head,
            },
        )
    } else if r.semaphore is Some && r.limit is Some && r.permit is Some {
        JsonView::Object(
            seq![
                ("ok"@, JsonView::Bool(true)),
                ("semaphore"@, JsonView::Str(r.semaphore->0)),
                ("limit"@, JsonView::Number(r.limit->0 as u64)),
                ("permit"@, JsonView::Number(r.permit->0 as u64)),
            ],
        )
    } else {
        JsonView::Object(
            seq![("ok"@, JsonView::Bool(true)), ("lock"@, JsonView::Str(r.lock))],
        )
    }
}

/// The object for what a client gets.
pub open spec fn answer_json(a: AnswerView) -> JsonView {
    match a {
        AnswerView::Lock(a) => JsonView::Object(
            seq![
                ("ok"@, JsonView::Bool(true)),
                ("lock"@, JsonView::Str(a.lock)),
                ("fence"@, JsonView::Number(a.fence)),
                ("holder"@, JsonView::Str(a.holder)),
            ],
        ),
        AnswerView::Semaphore(a) => JsonView::Object(
            seq![
                ("ok"@, JsonView::Bool(true)),
                ("semaphore"@, JsonView::Str(a.semaphore)),
                ("limit"@, JsonView::Number(a.limit as u64)),
                ("permit"@, JsonView::Number(a.permit as u64)),
                ("fence"@, JsonView::Number(a.fence)),
                ("holder"@, JsonView::Str(a.holder)),
            ],
        ),
        AnswerView::Rw(a) => rw_acquired_json(a),
        AnswerView::Release(r) => released_json(r),
    }
}

/// The object for the outcome of a request.
pub open spec fn outcome_json(outcome: Result<AnswerView, ClientError>) -> JsonView {
    match outcome {
        Ok(a) => answer_json(a),
        Err(e) => error_json(e),
    }
}

/// The fields of an object that says yes.
fn yes() -> (fields: Vec<(String, Json)>)
    ensures
        field_views(fields@) == seq![("ok"@, JsonView::Bool(true))],
{
    let mut fields: Vec<(String, Json)> = Vec::new();
    assert(field_views(fields@) =~= Seq::empty());
    push_field(&mut fields, "ok", Json::truth(true));
    assert(field_views(fields@) =~= seq![("ok"@, JsonView::Bool(true))]);
    fields
}

/// Append a field with a text.
fn push_text(fields: &mut Vec<(String, Json)>, name: &str, s: &str)
    ensures
        field_views(final(fields)@) == field_views(old(fields)@).push((name@, JsonView::Str(s@))),
{
    push_field(fields, name, Json::text(s.to_owned()));
}

/// Append a field with a number.
fn push_count(fields: &mut Vec<(String, Json)>, name: &str, n: u64)
    ensures
        field_views(final(fields)@) == field_views(old(fields)@).push((name@, JsonView::Number(n))),
{
    push_field(fields, name, Json::number(n));
}

/// An object that says no, with a code and a message.
pub fn refuse(code: &str, message: &str) -> (v: Json)
    ensures
        v@ == refusal(code@, message@),
{
    let mut fields: Vec<(String, Json)> = Vec::new();
    assert(field_views(fields@) =~= Seq::empty());
    push_field(&mut fields, "ok", Json::truth(false));
    push_text(&mut fields, "error", code);
    push_text(&mut fields, "message", message);
    assert(field_views(fields@) =~= refusal(code@, message@)->Object_0);
    Json::object(fields)
}

/// The object for an error.
pub fn error_object(e: ClientError) -> (v: Json)
    ensures
        v@ == error_json(e),
{
    refuse(e.code(), e.to_string().as_str())
}

/// The object for a side of an RW lock that has been acquired.
fn rw_acquired_object(a: &ClientRwAcquire) -> (v: Json)
    ensures
        v@ == rw_acquired_json(a@),
{
    let mut fields = yes();
    push_text(&mut fields, "rwlock", a.rwlock.as_str());
    push_text(&mut fields, "mode", a.mode.as_str());
    push_count(&mut fields, "limit", a.limit as u64);
    if let Some(p) = a.permit {
        push_count(&mut fields, "permit", p as u64);
    }
    push_count(&mut fields, "fence", a.fence);
    push_text(&mut fields, "holder", a.holder.as_str());
    assert(field_views(fields@) =~= rw_acquired_json(a@)->Object_0);
    Json::object(fields)
}

/// The object for what has been released.
fn released_object(r: &ClientRelease) -> (v: Json)
    ensures
        v@ == released_json(r@),
{
    match (&r.rwlock, r.mode, r.limit) {
        (Some(name), Some(mode), Some(limit)) => {
            let mut fields = yes();
            push_text(&mut fields, "rwlock", name.as_str());
            push_text(&mut fields, "mode", mode.as_str());
            push_count(&mut fields, "limit", limit as u64);
            if let Some(p) = r.permit {
                push_count(&mut fields, "permit", p as u64);
            }
            assert(field_views(fields@) =~= released_json(r@)->Object_0);
            return Json::object(fields);
        },
        _ => {},
    }
    let mut fields = yes();
    match (&r.semaphore, r.limit, r.permit) {
        (Some(name), Some(limit), Some(permit)) => {
            push_text(&mut fields, "semaphore", name.as_str());
            push_count(&mut fields, "limit", limit as u64);
            push_count(&mut fields, "permit", permit as u64);
        },
        _ => {
            push_text(&mut fields, "lock", r.lock.as_str());
        },
    }
    assert(field_views(fields@) =~= released_json(r@)->Object_0);
    Json::object(fields)
}

/// The object for the outcome of a request.
pub fn outcome_object(outcome: &Result<Answer, ClientError>) -> (v: Json)
    ensures
        v@ == outcome_json(result_view(*outcome)),
{
    match outcome {
        Err(e) => error_object(*e),
        Ok(Answer::Lock(a)) => {
            let mut fields = yes();
            push_text(&mut fields, "lock", a.lock.as_str());
            push_count(&mut fields, "fence", a.fence);
            push_text(&mut fields, "holder", a.holder.as_str());
            assert(field_views(fields@) =~= answer_json(AnswerView::Lock(a@))->Object_0);
            Json::object(fields)
        },
        Ok(Answer::Semaphore(a)) => {
            let mut fields = yes();
            push_text(&mut fields, "semaphore", a.semaphore.as_str());
            push_count(&mut fields, "limit", a.limit as u64);
            push_count(&mut fields, "permit", a.permit as u64);
            push_count(&mut fields, "fence", a.fence);
            push_text(&mut fields, "holder", a.holder.as_str());
            assert(field_views(fields@) =~= answer_json(AnswerView::Semaphore(a@))->Object_0);
            Json::object(fields)
        },
        Ok(Answer::Rw(a)) => rw_acquired_object(a),
        Ok(Answer::Release(r)) => released_object(r),
    }
}

/// The text of a field, if it is one.
pub open spec fn text_field(v: JsonView, name: Seq<char>) -> Option<Seq<char>> {
    match v.get(name) {
        Some(f) => f.text(),
        None => None,
    }
}

/// The name of a resource: the text of the field `name` or, if there is no such
/// field, of the other one; empty if there is no text.
pub open spec fn name_field(v: JsonView, other: Seq<char>) -> Seq<char> {
    let field = match v.get("name"@) {
        Some(f) => Some(f),
        None => v.get(other),
    };
    match field {
        Some(JsonView::Str(s)) => s,
        _ => Seq::empty(),
    }
}

/// The number of the field `limit`; zero if there is none.
pub open spec fn limit_field(v: JsonView) -> u64 {
    match v.get("limit"@) {
        Some(JsonView::Number(n)) => n,
        _ => 0,
    }
}

/// A request for a permit.
pub open spec fn semaphore_request(name: Seq<char>, limit: u64) -> Result<
    RequestView,
    ClientError,
> {
    if limit <= u32::MAX {
        Ok(RequestView::Semaphore { name, limit: limit as u32 })
    } else {
        Err(ClientError::BadLimit)
    }
}

/// A request for a side of an RW lock, which has several names.
pub open spec fn rw_request(mode: Seq<char>, name: Seq<char>, limit: u64) -> Result<
    RequestView,
    ClientError,
> {
    if limit > u32::MAX {
        Err(ClientError::BadLimit)
    } else if mode == "read"@ || mode == "r"@ || mode == "shared"@ {
        Ok(RequestView::Read { name, limit: limit as u32 })
    } else if mode == "write"@ || mode == "w"@ || mode == "exclusive"@ {
        Ok(RequestView::Write { name, limit: limit as u32 })
    } else {
        Err(ClientError::BadLimit)
    }
}

/// The text of the field `mode`; empty if there is none.
pub open spec fn mode_field(v: JsonView) -> Seq<char> {
    match text_field(v, "mode"@) {
        Some(s) => s,
        None => Seq::empty(),
    }
}

/// A request, or the object for the error.
pub open spec fn or_refusal(r: Result<RequestView, ClientError>) -> Result<RequestView, JsonView> {
    match r {
        Ok(request) => Ok(request),
        Err(e) => Err(error_json(e)),
    }
}

/// What an object asks for, or the object to answer at once.
pub open spec fn object_request(v: JsonView) -> Result<RequestView, JsonView> {
    match text_field(v, "op"@) {
        None => Err(refusal("bad_request"@, "unknown op"@)),
        Some(op) => if op == "acquire"@ {
            match text_field(v, "lock"@) {
                Some(lock) => Ok(RequestView::Acquire { lock }),
                None => Err(error_json(ClientError::EmptyLock)),
            }
        } else if op == "semaphore_acquire"@ || op == "sem_acquire"@ || op == "semaphore"@ {
            or_refusal(semaphore_request(name_field(v, "semaphore"@), limit_field(v)))
        } else if op == "rw_acquire"@ || op == "rwlock_acquire"@ {
            or_refusal(rw_request(mode_field(v), name_field(v, "rwlock"@), limit_field(v)))
        } else if op == "rw_read_acquire"@ || op == "rwlock_read_acquire"@ || op
            == "read_acquire"@ {
            or_refusal(rw_request("read"@, name_field(v, "rwlock"@), limit_field(v)))
        } else if op == "rw_write_acquire"@ || op == "rwlock_write_acquire"@ || op
            == "write_acquire"@ {
            or_refusal(rw_request("write"@, name_field(v, "rwlock"@), limit_field(v)))
        } else if op == "release"@ {
            match text_field(v, "holder"@) {
                Some(holder) => Ok(RequestView::Release { holder }),
                None => Err(error_json(ClientError::NotHeld)),
            }
        } else {
            Err(refusal("bad_request"@, "unknown op"@))
        },
    }
}

/// What a line of JSON asks for, by what was read from it.
pub open spec fn json_request(value: Option<JsonView>) -> Result<RequestView, JsonView> {
    match value {
        Some(v) => object_request(v),
        None => Err(refusal("bad_json"@, "malformed JSON line"@)),
    }
}

/// The content of a request or of an object.
pub open spec fn request_or_json(r: Result<Request, Json>) -> Result<RequestView, JsonView> {
    match r {
        Ok(request) => Ok(request@),
        Err(v) => Err(v@),
    }
}

/// The text of a field, if it is one.
pub fn find_text(v: &Json, name: &str) -> (r: Option<String>)
    ensures
        opt_view(r) == text_field(v@, name@),
{
    match v.get(name) {
        Some(f) => match f.as_text() {
            Some(s) => Some(s.clone()),
            None => None,
        },
        None => None,
    }
}

/// The name of a resource.
pub fn find_name(v: &Json, other: &str) -> (s: String)
    ensures
        s@ == name_field(v@, other@),
{
    let field = match v.get("name") {
        Some(f) => Some(f),
        None => v.get(other),
    };
    match field {
        Some(f) => match f.as_text() {
            Some(s) => s.clone(),
            None => String::new(),
        },
        None => String::new(),
    }
}

/// The number of the field `limit`; zero if there is none.
pub fn find_limit(v: &Json) -> (n: u64)
    ensures
        n == limit_field(v@),
{
    match v.get("limit") {
        Some(f) => match f.as_number(u64::MAX) {
            Some(n) => n,
            None => 0,
        },
        None => 0,
    }
}

/// The text of the field `mode`; empty if there is none.
pub fn find_mode(v: &Json) -> (s: String)
    ensures
        s@ == mode_field(v@),
{
    match find_text(v, "mode") {
        Some(s) => s,
        None => String::new(),
    }
}

/// The content of a request or an error.
pub open spec fn request_or_error(r: Result<Request, ClientError>) -> Result<
    RequestView,
    ClientError,
> {
    match r {
        Ok(request) => Ok(request@),
        Err(e) => Err(e),
    }
}

/// A request for a permit.
pub fn ask_semaphore(name: String, limit: u64) -> (r: Result<Request, ClientError>)
    ensures
        request_or_error(r) == semaphore_request(name@, limit),
{
    if limit <= u32::MAX as u64 {
        Ok(Request::Semaphore { name, limit: limit as u32 })
    } else {
        Err(ClientError::BadLimit)
    }
}

/// A request for a side of an RW lock.
pub fn ask_rw(mode: &str, name: String, limit: u64) -> (r: Result<Request, ClientError>)
    ensures
        request_or_error(r) == rw_request(mode@, name@, limit),
{
    if limit > u32::MAX as u64 {
        Err(ClientError::BadLimit)
    } else if str_eq(mode, "read") || str_eq(mode, "r") || str_eq(mode, "shared") {
        Ok(Request::Read { name, limit: limit as u32 })
    } else if str_eq(mode, "write") || str_eq(mode, "w") || str_eq(mode, "exclusive") {
        Ok(Request::Write { name, limit: limit as u32 })
    } else {
        Err(ClientError::BadLimit)
    }
}

/// A request, or the object for the error.
fn request_or_refusal(r: Result<Request, ClientError>) -> (x: Result<Request, Json>)
    ensures
        request_or_json(x) == or_refusal(request_or_error(r)),
{
    match r {
        Ok(request) => Ok(request),
        Err(e) => Err(error_object(e)),
    }
}

/// What an object asks for, or the object to answer at once.
pub fn read_object(v: &Json) -> (r: Result<Request, Json>)
    ensures
        request_or_json(r) == object_request(v@),
{
    let op = match find_text(v, "op") {
        Some(op) => op,
        None => {
            return Err(refuse("bad_request", "unknown op"));
        },
    };
    let op = op.as_str();
    if str_eq(op, "acquire") {
        match find_text(v, "lock") {
            Some(lock) => Ok(Request::Acquire { lock }),
            None => Err(error_object(ClientError::EmptyLock)),
        }
    } else if str_eq(op, "semaphore_acquire") || str_eq(op, "sem_acquire") || str_eq(
        op,
        "semaphore",
    ) {
        request_or_refusal(ask_semaphore(find_name(v, "semaphore"), find_limit(v)))
    } else if str_eq(op, "rw_acquire") || str_eq(op, "rwlock_acquire") {
        request_or_refusal(
            ask_rw(find_mode(v).as_str(), find_name(v, "rwlock"), find_limit(v)),
        )
    } else if str_eq(op, "rw_read_acquire") || str_eq(op, "rwlock_read_acquire") || str_eq(
        op,
        "read_acquire",
    ) {
        request_or_refusal(ask_rw("read", find_name(v, "rwlock"), find_limit(v)))
    } else if str_eq(op, "rw_write_acquire") || str_eq(op, "rwlock_write_acquire") || str_eq(
        op,
        "write_acquire",
    ) {
        request_or_refusal(ask_rw("write", find_name(v, "rwlock"), find_limit(v)))
    } else if str_eq(op, "release") {
        match find_text(v, "holder") {
            Some(holder) => Ok(Request::Release { holder }),
            None => Err(error_object(ClientError::NotHeld)),
        }
    } else {
        Err(refuse("bad_request", "unknown op"))
    }
}

/// What a line of JSON asks for, or the object to answer at once.
pub fn handle_tcp_json(line: &str) -> (r: Result<Request, Json>)
    ensures
        request_or_json(r) == json_request(json_value(line@)),
{
    match parse_json(line) {
        Some(v) => read_object(&v),
        None => Err(refuse("bad_json", "malformed JSON line")),
    }
}

/// A value as one line of JSON.
pub fn json_line(v: &Json) -> (s: String)
    ensures
        s@ == json_text(v@),
{
    render_json(v)
}

// ---- one line of a client -----------------------------------------------------------------------
/// What becomes of a line.
#[derive(Debug)]
pub enum TcpStep {
    /// The line is blank.
    Skip,
    /// Say goodbye and close the connection.
    Bye,
    /// Answer at once.
    Say(String),
    /// Carry out a request and answer in text.
    Text(Request),
    /// Carry out a request and answer in JSON.
    Json(Request),
}

/// What becomes of a line from a client.
pub fn handle_tcp_line(line: &str) -> (step: TcpStep)
    ensures
        ({
            let t = trim(line@);
            let word = lower(t);
            match step {
                TcpStep::Skip => t.len() == 0,
                TcpStep::Bye => word == "quit"@ || word == "exit"@,
                TcpStep::Say(s) => {
                    &&& t.len() > 0 && word != "quit"@ && word != "exit"@
                    &&& if word == "ping"@ {
                        s@ == "PONG"@
                    } else if t[0] == '{' {
                        json_request(json_value(t)) matches Err(v) && s@ == json_text(v)
                    } else {
                        text_request(t) == Err::<RequestView, Seq<char>>(s@)
                    }
                },
                TcpStep::Text(request) => {
                    &&& t.len() > 0 && word != "quit"@ && word != "exit"@ && word != "ping"@
                    &&& t[0] != '{'
                    &&& text_request(t) == Ok::<RequestView, Seq<char>>(request@)
                },
                TcpStep::Json(request) => {
                    &&& t.len() > 0 && word != "quit"@ && word != "exit"@ && word != "ping"@
                    &&& t[0] == '{'
                    &&& json_request(json_value(t)) == Ok::<RequestView, JsonView>(request@)
                },
            }
        }),
{
    let v = trim_chars(&chars_of(line));
    let t = string_of(&v);
    if v.len() == 0 {
        return TcpStep::Skip;
    }
    let word = to_lower(t.as_str());
    if chars_are(&word, "quit") || chars_are(&word, "exit") {
        return TcpStep::Bye;
    }
    if chars_are(&word, "ping") {
        return TcpStep::Say("PONG".to_owned());
    }
    if v[0] == '{' {
        match handle_tcp_json(t.as_str()) {
            Ok(request) => TcpStep::Json(request),
            Err(v) => TcpStep::Say(json_line(&v)),
        }
    } else {
        match handle_tcp_text(t.as_str()) {
            Ok(request) => TcpStep::Text(request),
            Err(s) => TcpStep::Say(s),
        }
    }
}

// ---- the console ------------------------------------------------------------------------------
/// What somebody at the console asks for.
#[derive(Clone, Debug, PartialEq, Eq)]
pub enum Console {
    /// Nothing, or a command that lacks its lock.
    Nothing,
    Acquire(LockId),
    Release(LockId),
    Quit,
    /// A word that is no command.
    Unknown(String),
}

/// What a line at the console asks for: `acquire <lock>`, `release <lock>`,
/// `quit` or `exit`.
pub fn handle_console_line(line: &str) -> (c: Console)
    ensures
        ({
            let w = words(line@);
            match c {
                Console::Nothing => w.len() == 0 || (w.len() == 1 && (w[0] == "acquire"@ || w[0]
                    == "release"@)),
                Console::Acquire(lock) => w.len() > 1 && w[0] == "acquire"@ && lock@ == w[1],
                Console::Release(lock) => w.len() > 1 && w[0] == "release"@ && lock@ == w[1],
                Console::Quit => w.len() > 0 && (w[0] == "quit"@ || w[0] == "exit"@),
                Console::Unknown(word) => {
                    &&& w.len() > 0 && word@ == w[0]
                    &&& w[0] != "acquire"@ && w[0] != "release"@
                    &&& w[0] != "quit"@ && w[0] != "exit"@
                },
            }
        }),
{
    let w = split_words(&chars_of(line));
    let ghost views = char_views(w@);
    proof {
        reveal_strlit("acquire");
        reveal_strlit("release");
        reveal_strlit("quit");
        reveal_strlit("exit");
        assert("acquire"@[0] == 'a');
        assert("release"@[0] == 'r');
        assert("quit"@[0] == 'q');
        assert("exit"@[0] == 'e');
    }
    if w.len() == 0 {
        return Console::Nothing;
    }
    assert(views[0] == w@[0]@);
    if chars_are(&w[0], "acquire") || chars_are(&w[0], "release") {
        if w.len() == 1 {
            return Console::Nothing;
        }
        assert(views[1] == w@[1]@);
        let lock = string_of(&w[1]);
        if chars_are(&w[0], "acquire") {
            Console::Acquire(lock)
        } else {
            Console::Release(lock)
        }
    } else if chars_are(&w[0], "quit") || chars_are(&w[0], "exit") {
        Console::Quit
    } else {
        Console::Unknown(string_of(&w[0]))
    }
}

} // verus!
