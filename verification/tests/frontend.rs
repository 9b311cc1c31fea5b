use live_mutex_mills::client_api::{
    rw_gate_lock_name, rw_slot_lock_name, semaphore_lock_name, Answer, ClientAcquire, ClientError,
    ClientRelease, ClientRwAcquire, ClientSemaphoreAcquire, RwMode,
};
use live_mutex_mills::frontend::{
    handle_console_line, handle_tcp_json, handle_tcp_line, handle_tcp_text, json_line, outcome_object,
    read_line_limited, say_outcome, split_word, ConnectionCount, Console, LineError, LineReader, Request,
    TcpStep, MAX_CLIENT_CONNECTIONS,
};
use live_mutex_mills::http::{
    http_outcome, http_response, percent_decode, query_param, HttpHead, HttpNext, Routed,
};

#[test]
fn percent_decodes_paths_and_query_values() {
    assert_eq!(percent_decode("tenant%207%2Freport"), Some("tenant 7/report".into()));
    assert_eq!(percent_decode("bad%xx"), None);
    assert_eq!(percent_decode("a+b%2B"), Some("a b+".into()));
    assert_eq!(percent_decode("%4"), None);
    assert_eq!(percent_decode("%ff"), None);
    assert_eq!(query_param("a=1&hol%64er=h%31&holder=x", "holder"), Some("h%31".into()));
    assert_eq!(query_param("&&flag", "flag"), Some("".into()));
    assert_eq!(query_param("a=1", "b"), None);
}

#[test]
fn text_release_accepts_legacy_lock_then_holder_shape() {
    let (op, rest) = split_word("release lock-A holder-B");
    assert_eq!(op, "release");
    let (first, second) = split_word(rest.trim());
    assert_eq!(first, "lock-A");
    assert_eq!(second.trim(), "holder-B");
    assert_eq!(
        handle_tcp_text("release lock-A holder-B"),
        Ok(Request::Release { holder: "holder-B".to_string() })
    );
    assert_eq!(
        handle_tcp_text("RELEASE  holder-B "),
        Ok(Request::Release { holder: "holder-B".to_string() })
    );
}

#[test]
fn read_line_limited_rejects_overlong_lines() {
    // A line within the limit is read normally.
    let mut ok = LineReader::new(b"short line\nnext\n".to_vec());
    let mut buf = String::new();
    assert!(read_line_limited(&mut ok, &mut buf, 64).is_ok());
    assert_eq!(buf, "short line\n");
    assert_eq!(read_line_limited(&mut ok, &mut buf, 64), Ok(5));
    assert_eq!(buf, "short line\nnext\n");

    // A line longer than the limit is rejected instead of buffered.
    let huge = format!("{}\n", "x".repeat(10_000));
    let mut over = LineReader::new(huge.as_bytes().to_vec());
    let mut buf = String::new();
    let err = read_line_limited(&mut over, &mut buf, 1024).unwrap_err();
    assert_eq!(err, LineError::TooLong);
    assert_eq!(buf.len(), 1025);

    // EOF returns 0.
    let mut empty = LineReader::new(b"".to_vec());
    let mut buf = String::new();
    assert_eq!(read_line_limited(&mut empty, &mut buf, 64).unwrap(), 0);

    let mut broken = LineReader::new(vec![0xff, b'\n']);
    assert_eq!(read_line_limited(&mut broken, &mut buf, 64), Err(LineError::NotUtf8));
    assert_eq!(buf, "");
}

#[test]
fn connection_guard_caps_concurrency() {
    // Exhaust the limit, then confirm further acquisitions fail and releasing
    // restores capacity.
    let mut active = ConnectionCount::new();
    for _ in 0..MAX_CLIENT_CONNECTIONS {
        assert!(active.try_acquire());
    }
    assert_eq!(active.active(), MAX_CLIENT_CONNECTIONS);
    assert!(!active.try_acquire());
    assert_eq!(active.active(), MAX_CLIENT_CONNECTIONS);
    active.release();
    assert!(active.try_acquire());
    for _ in 0..MAX_CLIENT_CONNECTIONS {
        active.release();
    }
    assert!(active.try_acquire());
    assert_eq!(active.active(), 1);
    active.release();
    assert_eq!(active.active(), 0);
}

#[test]
fn text_lines_become_requests() {
    let cases = [
        ("acquire  a b ", Request::Acquire { lock: "a b".to_string() }),
        ("SemAcquire 10 api-rate", Request::Semaphore { name: "api-rate".to_string(), limit: 10 }),
        ("acquire-semaphore 2 x y", Request::Semaphore { name: "x y".to_string(), limit: 2 }),
        ("rlock 3 doc", Request::Read { name: "doc".to_string(), limit: 3 }),
        ("WRITELOCK 3 doc", Request::Write { name: "doc".to_string(), limit: 3 }),
    ];
    for (line, request) in cases {
        assert_eq!(handle_tcp_text(line), Ok(request), "{line}");
    }
    assert_eq!(
        handle_tcp_text("semacquire many x"),
        Err("ERROR bad_limit limit must be between 2 and 100".to_string())
    );
    assert!(handle_tcp_text("dance").unwrap_err().starts_with("ERROR bad_request use ACQUIRE"));
}

#[test]
fn lines_are_told_apart() {
    assert!(matches!(handle_tcp_line("  \r\n"), TcpStep::Skip));
    assert!(matches!(handle_tcp_line("Quit\n"), TcpStep::Bye));
    assert!(matches!(handle_tcp_line("EXIT"), TcpStep::Bye));
    match handle_tcp_line(" ping ") {
        TcpStep::Say(s) => assert_eq!(s, "PONG"),
        other => panic!("{other:?}"),
    }
    match handle_tcp_line("{oops") {
        TcpStep::Say(s) => assert_eq!(
            s,
            "{\"ok\":false,\"error\":\"bad_json\",\"message\":\"malformed JSON line\"}"
        ),
        other => panic!("{other:?}"),
    }
    match handle_tcp_line("{\"op\":\"release\",\"holder\":\"h1\"}") {
        TcpStep::Json(r) => assert_eq!(r, Request::Release { holder: "h1".to_string() }),
        other => panic!("{other:?}"),
    }
}

#[test]
fn json_lines_become_requests() {
    let cases = [
        ("{\"op\":\"acquire\",\"lock\":\"name\"}", Request::Acquire { lock: "name".to_string() }),
        (
            "{\"op\":\"semaphore_acquire\",\"name\":\"api\",\"limit\":10}",
            Request::Semaphore { name: "api".to_string(), limit: 10 },
        ),
        (
            "{\"op\":\"sem_acquire\",\"semaphore\":\"api\"}",
            Request::Semaphore { name: "api".to_string(), limit: 0 },
        ),
        (
            "{\"op\":\"rw_acquire\",\"name\":\"doc\",\"mode\":\"shared\",\"limit\":10}",
            Request::Read { name: "doc".to_string(), limit: 10 },
        ),
        (
            "{\"op\":\"write_acquire\",\"rwlock\":\"doc\",\"limit\":10}",
            Request::Write { name: "doc".to_string(), limit: 10 },
        ),
        (
            "{\"op\":\"rw_read_acquire\",\"rwlock\":\"doc\",\"limit\":10.5}",
            Request::Read { name: "doc".to_string(), limit: 0 },
        ),
    ];
    for (line, request) in cases {
        assert_eq!(handle_tcp_json(line).map_err(|v| json_line(&v)), Ok(request), "{line}");
    }
    let code = |line: &str| {
        let text = json_line(&handle_tcp_json(line).unwrap_err());
        let v: serde_json::Value = serde_json::from_str(&text).unwrap();
        v["error"].as_str().unwrap().to_string()
    };
    assert_eq!(code("{\"op\":\"acquire\"}"), "empty_lock");
    assert_eq!(code("{\"op\":\"release\"}"), "not_held");
    assert_eq!(code("{\"op\":\"semaphore\",\"name\":\"a\",\"limit\":4294967296}"), "bad_limit");
    assert_eq!(code("{\"op\":\"rw_acquire\",\"name\":\"a\",\"mode\":\"x\",\"limit\":2}"), "bad_limit");
    assert_eq!(code("{\"op\":7}"), "bad_request");
    assert_eq!(code("[1]"), "bad_request");
    assert_eq!(code("nonsense"), "bad_json");
}

fn release(semaphore: Option<&str>, rwlock: Option<(&str, RwMode)>, permit: Option<u32>) -> ClientRelease {
    ClientRelease {
        lock: "L".to_string(),
        semaphore: semaphore.map(String::from),
        limit: Some(10),
        permit,
        rwlock: rwlock.map(|(name, _)| name.to_string()),
        mode: rwlock.map(|(_, mode)| mode),
    }
}

#[test]
fn outcomes_are_told_in_text_and_json() {
    let both = |outcome: Result<Answer, ClientError>| {
        (say_outcome(&outcome), json_line(&outcome_object(&outcome)))
    };
    let (text, json) = both(Ok(Answer::Lock(ClientAcquire {
        lock: "report-A".to_string(),
        fence: 1,
        holder: "h0000000000000001".to_string(),
    })));
    assert_eq!(text, "ACQUIRED report-A fence=1 holder=h0000000000000001");
    assert_eq!(
        json,
        "{\"ok\":true,\"lock\":\"report-A\",\"fence\":1,\"holder\":\"h0000000000000001\"}"
    );
    let (text, json) = both(Ok(Answer::Semaphore(ClientSemaphoreAcquire {
        semaphore: "api-rate".to_string(),
        limit: 10,
        permit: 4,
        fence: 8,
        holder: "h000000000000000a".to_string(),
    })));
    assert_eq!(text, "SEMACQUIRED api-rate limit=10 permit=4 fence=8 holder=h000000000000000a");
    assert_eq!(
        json,
        "{\"ok\":true,\"semaphore\":\"api-rate\",\"limit\":10,\"permit\":4,\"fence\":8,\"holder\":\"h000000000000000a\"}"
    );
    let (text, json) = both(Ok(Answer::Rw(ClientRwAcquire {
        rwlock: "report-A".to_string(),
        mode: RwMode::Read,
        limit: 10,
        permit: Some(3),
        fence: 12,
        holder: "rw0000000000000001".to_string(),
    })));
    assert_eq!(
        text,
        "RWACQUIRED report-A mode=read limit=10 permit=3 fence=12 holder=rw0000000000000001"
    );
    assert_eq!(
        json,
        "{\"ok\":true,\"rwlock\":\"report-A\",\"mode\":\"read\",\"limit\":10,\"permit\":3,\"fence\":12,\"holder\":\"rw0000000000000001\"}"
    );
    let (text, json) = both(Ok(Answer::Rw(ClientRwAcquire {
        rwlock: "report-A".to_string(),
        mode: RwMode::Write,
        limit: 10,
        permit: None,
        fence: 18,
        holder: "rw0000000000000002".to_string(),
    })));
    assert_eq!(text, "RWACQUIRED report-A mode=write limit=10 fence=18 holder=rw0000000000000002");
    assert_eq!(
        json,
        "{\"ok\":true,\"rwlock\":\"report-A\",\"mode\":\"write\",\"limit\":10,\"fence\":18,\"holder\":\"rw0000000000000002\"}"
    );
    let (text, json) = both(Ok(Answer::Release(release(Some("api"), None, Some(3)))));
    assert_eq!(text, "SEMRELEASED api limit=10 permit=3");
    assert_eq!(json, "{\"ok\":true,\"semaphore\":\"api\",\"limit\":10,\"permit\":3}");
    let (text, json) = both(Ok(Answer::Release(release(None, Some(("d", RwMode::Read)), Some(3)))));
    assert_eq!(text, "RWRELEASED d mode=read limit=10 permit=3");
    assert_eq!(json, "{\"ok\":true,\"rwlock\":\"d\",\"mode\":\"read\",\"limit\":10,\"permit\":3}");
    let (text, json) = both(Ok(Answer::Release(release(None, Some(("d", RwMode::Write)), None))));
    assert_eq!(text, "RWRELEASED d mode=write limit=10");
    assert_eq!(json, "{\"ok\":true,\"rwlock\":\"d\",\"mode\":\"write\",\"limit\":10}");
    let (text, json) = both(Ok(Answer::Release(release(None, None, None))));
    assert_eq!(text, "RELEASED L");
    assert_eq!(json, "{\"ok\":true,\"lock\":\"L\"}");
}

#[test]
fn errors_have_codes_messages_and_statuses() {
    let cases = [
        (ClientError::Stopped, 503, "stopped", "node stopped"),
        (ClientError::EmptyLock, 400, "empty_lock", "lock must not be empty"),
        (ClientError::BadLimit, 400, "bad_limit", "limit must be between 2 and 100"),
        (ClientError::NotHeld, 404, "not_held", "holder token does not refer to a held lock"),
        (ClientError::HolderMismatch, 409, "holder_mismatch", "holder token does not own that lock"),
    ];
    for (e, status, code, message) in cases {
        let (s, value) = http_outcome(&Err(e));
        assert_eq!(s, status);
        assert_eq!(
            json_line(&value),
            format!("{{\"ok\":false,\"error\":\"{code}\",\"message\":\"{message}\"}}")
        );
        assert_eq!(say_outcome(&Err(e)), format!("ERROR {code} {message}"));
    }
}

#[test]
fn slot_locks_have_their_own_names() {
    assert_eq!(semaphore_lock_name("a:1", 10, 3), "__lmx_sem_v1:10:3:613a31");
    assert_eq!(rw_slot_lock_name("a:1", 10, 3), "__lmx_rw_v1:10:slot:3:613a31");
    assert_eq!(rw_gate_lock_name("a:1", 10), "__lmx_rw_v1:10:gate:613a31");
}

fn route(method: &str, target: &str, headers: &[&str], body: &str) -> Routed {
    let mut head = HttpHead::new();
    assert!(matches!(head.line(&format!("{method} {target} HTTP/1.1\r\n")), HttpNext::Line));
    for header in headers {
        assert!(matches!(head.line(&format!("{header}\r\n")), HttpNext::Line));
    }
    let length = format!("Content-Length:  {} \r\n", body.len());
    assert!(matches!(head.line(&length), HttpNext::Line));
    match head.line("\r\n") {
        HttpNext::Body(n) => assert_eq!(n, body.len()),
        other => panic!("{other:?}"),
    }
    head.finish(body.as_bytes().to_vec())
}

fn call(routed: Routed) -> Request {
    match routed {
        Routed::Call(request) => request,
        other => panic!("{other:?}"),
    }
}

fn reply(routed: Routed) -> (u16, String) {
    match routed {
        Routed::Reply(status, value) => (status, json_line(&value)),
        other => panic!("{other:?}"),
    }
}

#[test]
fn http_paths_become_requests() {
    assert_eq!(
        call(route("POST", "/locks/tenant%207%2Freport/acquire", &[], "")),
        Request::Acquire { lock: "tenant 7/report".to_string() }
    );
    assert_eq!(
        call(route("POST", "/locks/acquire", &[], "{\"lock\":\"A\"}")),
        Request::Acquire { lock: "A".to_string() }
    );
    assert_eq!(
        call(route("POST", "/semaphores/acquire", &[], "{\"semaphore\":\"api\",\"limit\":10}")),
        Request::Semaphore { name: "api".to_string(), limit: 10 }
    );
    assert_eq!(
        call(route("POST", "/rwlocks/doc/write/", &[], "{\"limit\":4}")),
        Request::Write { name: "doc".to_string(), limit: 4 }
    );
    assert_eq!(
        call(route("POST", "/rwlocks/acquire", &[], "{\"name\":\"doc\",\"mode\":\"r\",\"limit\":4}")),
        Request::Read { name: "doc".to_string(), limit: 4 }
    );
    // The holder comes from the body, a header or the query.
    assert_eq!(
        call(route("POST", "/locks/A/release?holder=q", &["X-LMX-Holder: h"], "{\"holder\":\"b\"}")),
        Request::ReleaseLock { lock: "A".to_string(), holder: "b".to_string() }
    );
    assert_eq!(
        call(route("DELETE", "/locks/release?holder=q", &["x-lmx-holder:h"], "")),
        Request::Release { holder: "h".to_string() }
    );
    assert_eq!(
        call(route("DELETE", "/rwlocks/doc/release?x=1&holder=rw%31", &[], "")),
        Request::ReleaseRw { name: "doc".to_string(), holder: "rw1".to_string() }
    );
}

#[test]
fn http_refuses_what_it_does_not_know() {
    assert_eq!(reply(route("GET", "/healthz", &[], "")), (200, "{\"ok\":true}".to_string()));
    assert_eq!(reply(route("GET", "/locks/A/acquire", &[], "")).0, 405);
    assert_eq!(reply(route("POST", "/nowhere", &[], "")).0, 404);
    assert_eq!(reply(route("DELETE", "/locks/acquire", &[], "")).0, 404);
    assert_eq!(
        reply(route("POST", "/locks/A/release", &[], "{}")),
        (
            400,
            "{\"ok\":false,\"error\":\"missing_holder\",\"message\":\"release requires a holder token\"}"
                .to_string()
        )
    );
    assert_eq!(
        reply(route("POST", "/locks/acquire", &[], "{")),
        (
            400,
            "{\"ok\":false,\"error\":\"bad_json\",\"message\":\"malformed JSON body\"}".to_string()
        )
    );
    assert_eq!(
        reply(route("POST", "/semaphores/x/acquire", &[], "{\"limit\":99999999999}")).0,
        400
    );
}

#[test]
fn http_heads_are_bounded() {
    let mut head = HttpHead::new();
    head.line("POST / HTTP/1.1\r\n");
    for i in 0..100 {
        assert!(matches!(head.line(&format!("H{i}: v\r\n")), HttpNext::Line));
    }
    // Neither a line without a colon nor a header that was there is one more.
    assert!(matches!(head.line("no header\r\n"), HttpNext::Line));
    assert!(matches!(head.line("h99: w\r\n"), HttpNext::Line));
    match head.line("H100: v\r\n") {
        HttpNext::Reply(431, v) => {
            assert_eq!(json_line(&v), "{\"ok\":false,\"error\":\"too_many_headers\"}")
        }
        other => panic!("{other:?}"),
    }
    let mut head = HttpHead::new();
    head.line("POST / HTTP/1.1\r\n");
    head.line("content-length: 1048577\r\n");
    match head.line("\n") {
        HttpNext::Reply(413, v) => {
            assert_eq!(
                http_response(413, &v),
                "HTTP/1.1 413 Payload Too Large\r\nContent-Type: application/json\r\nContent-Length: 37\r\nConnection: close\r\n\r\n{\"ok\":false,\"error\":\"body_too_large\"}"
            )
        }
        other => panic!("{other:?}"),
    }
}

#[test]
fn http_requests_may_have_a_hundred_headers() {
    let mut head = HttpHead::new();
    head.line("POST /locks/a/acquire HTTP/1.1\r\n");
    for i in 0..100 {
        assert!(matches!(head.line(&format!("H{i}: v\r\n")), HttpNext::Line));
    }
    assert!(matches!(head.line("\r\n"), HttpNext::Body(0)));
    assert!(matches!(head.finish(Vec::new()), Routed::Call(Request::Acquire { lock }) if lock == "a"));
}

#[test]
fn console_lines_are_commands() {
    assert_eq!(handle_console_line(" acquire  a  b"), Console::Acquire("a".to_string()));
    assert_eq!(handle_console_line("release a"), Console::Release("a".to_string()));
    assert_eq!(handle_console_line("acquire"), Console::Nothing);
    assert_eq!(handle_console_line("  "), Console::Nothing);
    assert_eq!(handle_console_line("exit now"), Console::Quit);
    assert_eq!(handle_console_line("Acquire a"), Console::Unknown("Acquire".to_string()));
}
