//! Clients of a whole cluster: drivers, coordinators and both protocols, with
//! queues in place of sockets.
use std::collections::{HashMap, VecDeque};

use serde_json::Value;

use live_mutex_mills::client_api::{
    Answer, Ask, Call, ClientError, Heard, LockClient, RwMode, Stage,
};
use live_mutex_mills::codec::WireCodec;
use live_mutex_mills::coordinator::Coordinator;
use live_mutex_mills::frontend::{
    handle_tcp_line, json_line, outcome_object, say_outcome, start, TcpStep,
};
use live_mutex_mills::http::{http_outcome, http_response, HttpHead, HttpNext, Routed};
use live_mutex_mills::transport::{
    hello_line, read_frame, read_hello, Delivery, Driver, Ev, Frame, NodeEvent,
};
use live_mutex_mills::transport::Command;
use live_mutex_mills::QuorumPolicy;

struct Host {
    driver: Driver,
    inbox: VecDeque<Ev>,
    coordinator: Coordinator,
    client: LockClient,
    calls: Vec<Option<Call>>,
    waiters: HashMap<u64, usize>,
}

struct TestCluster {
    hosts: Vec<Host>,
    codec: WireCodec,
    now: u64,
}

impl TestCluster {
    fn start(n: u32) -> Self {
        let mut hosts = Vec::new();
        for id in 0..n {
            let mut inbox = VecDeque::new();
            for peer in 0..n {
                if peer != id {
                    let greeting = format!("{}\n", hello_line(id, WireCodec::Text));
                    assert_eq!(read_hello(&greeting, 1024), Some((id, WireCodec::Text)));
                    inbox.push_back(Ev::Conn(peer));
                }
            }
            hosts.push(Host {
                driver: Driver::new(id, n, QuorumPolicy::Majority),
                inbox,
                coordinator: Coordinator::new(),
                client: LockClient::new(),
                calls: Vec::new(),
                waiters: HashMap::new(),
            });
        }
        let mut cluster = TestCluster { hosts, codec: WireCodec::Text, now: 0 };
        cluster.pump();
        cluster
    }

    fn command(&mut self, host: usize, commands: Vec<Command>) {
        for command in commands {
            self.hosts[host].inbox.push_back(Ev::Cmd(command));
        }
    }

    /// Carry out what a call asks for, until it waits or is over.
    fn serve(&mut self, host: usize, id: usize) {
        loop {
            let mut call = self.hosts[host].calls[id].take().unwrap();
            let asks = call.take_asks();
            self.hosts[host].calls[id] = Some(call);
            if asks.is_empty() {
                return;
            }
            for ask in asks {
                match ask {
                    Ask::Acquire { lock, waiter, resource } => {
                        self.hosts[host].waiters.insert(waiter, id);
                        match self.hosts[host].coordinator.acquire(lock, waiter, resource) {
                            Ok(commands) => self.command(host, commands),
                            Err(e) => self.tell(host, id, Heard::Acquired(waiter, Err(e))),
                        }
                    }
                    Ask::CancelAcquire { lock, waiter } => {
                        self.hosts[host].waiters.remove(&waiter);
                        let commands = self.hosts[host].coordinator.cancel_acquire(&lock, waiter);
                        self.command(host, commands);
                    }
                    Ask::Release { lock, holder } => {
                        let (result, commands) =
                            self.hosts[host].coordinator.release_holder(lock.as_deref(), &holder);
                        self.command(host, commands);
                        self.tell(host, id, Heard::Released(result));
                    }
                }
            }
        }
    }

    fn tell(&mut self, host: usize, id: usize, heard: Heard) {
        let call = self.hosts[host].calls[id].take().unwrap();
        let next = self.hosts[host].client.hear(call, heard);
        self.hosts[host].calls[id] = Some(next);
    }

    /// Hand out what the node has acquired.
    fn report(&mut self, host: usize, event: NodeEvent) {
        let commands = self.hosts[host].coordinator.handle_node_event(&event);
        self.command(host, commands);
        while let Some((waiter, acquired)) = self.hosts[host].coordinator.offer() {
            let id = self.hosts[host].waiters.remove(&waiter);
            let commands = self.hosts[host].coordinator.settle(id.is_some());
            self.command(host, commands);
            if let Some(id) = id {
                self.tell(host, id, Heard::Acquired(waiter, Ok(acquired)));
                self.serve(host, id);
            }
        }
    }

    /// Let everything happen that can happen without time passing.
    fn pump(&mut self) {
        loop {
            let mut quiet = true;
            for host in 0..self.hosts.len() {
                while let Some(ev) = self.hosts[host].inbox.pop_front() {
                    quiet = false;
                    let now = self.now;
                    self.hosts[host].driver.handle(now, ev);
                    while let Some(delivery) = self.hosts[host].driver.next_send() {
                        let from = self.hosts[host].driver.id();
                        match delivery {
                            Delivery::Here(msg) => {
                                self.hosts[host].inbox.push_back(Ev::In(from, msg))
                            }
                            Delivery::Wire(to, msg) => {
                                let line = format!("{}\n", self.codec.encode_line(&msg));
                                match read_frame(self.codec, &line, 4096) {
                                    Frame::Deliver(msg) => self.hosts[to as usize]
                                        .inbox
                                        .push_back(Ev::In(from, msg)),
                                    other => panic!("{other:?}"),
                                }
                            }
                        }
                    }
                    for event in self.hosts[host].driver.take_reports() {
                        self.report(host, event);
                    }
                }
            }
            if quiet {
                return;
            }
        }
    }

    fn open(&mut self, host: usize, call: Call) -> usize {
        self.hosts[host].calls.push(Some(call));
        let id = self.hosts[host].calls.len() - 1;
        self.serve(host, id);
        self.pump();
        id
    }

    fn outcome(&self, host: usize, id: usize) -> Option<Result<Answer, ClientError>> {
        self.hosts[host].calls[id].as_ref().unwrap().outcome().cloned()
    }

    /// Send a line as a text client; returns the reply, or the call that waits.
    fn text(&mut self, host: usize, line: &str) -> Result<String, usize> {
        match handle_tcp_line(line) {
            TcpStep::Text(request) => {
                let call = start(&mut self.hosts[host].client, request);
                let id = self.open(host, call);
                match self.outcome(host, id) {
                    Some(outcome) => Ok(say_outcome(&outcome)),
                    None => Err(id),
                }
            }
            TcpStep::Json(request) => {
                let call = start(&mut self.hosts[host].client, request);
                let id = self.open(host, call);
                match self.outcome(host, id) {
                    Some(outcome) => Ok(json_line(&outcome_object(&outcome))),
                    None => Err(id),
                }
            }
            TcpStep::Say(s) => Ok(s),
            other => panic!("{other:?}"),
        }
    }

    /// Send an HTTP request; returns status and body, or the call that waits.
    fn http(&mut self, host: usize, method: &str, path: &str, body: &str) -> Result<(u16, Value), usize> {
        let mut head = HttpHead::new();
        let lines = [
            format!("{method} {path} HTTP/1.1\r\n"),
            "Host: localhost\r\n".to_string(),
            format!("Content-Length: {}\r\n", body.len()),
            "\r\n".to_string(),
        ];
        let mut next = HttpNext::Line;
        for line in &lines {
            assert!(matches!(next, HttpNext::Line));
            next = head.line(line);
        }
        match next {
            HttpNext::Body(n) => assert_eq!(n, body.len()),
            other => panic!("{other:?}"),
        }
        match head.finish(body.as_bytes().to_vec()) {
            Routed::Reply(status, value) => Ok(parse_response(&http_response(status, &value))),
            Routed::Call(request) => {
                let call = start(&mut self.hosts[host].client, request);
                let id = self.open(host, call);
                self.http_outcome(host, id).ok_or(id)
            }
        }
    }

    fn http_outcome(&self, host: usize, id: usize) -> Option<(u16, Value)> {
        let outcome = self.outcome(host, id)?;
        let (status, value) = http_outcome(&outcome);
        Some(parse_response(&http_response(status, &value)))
    }

    fn http_ok(&mut self, host: usize, method: &str, path: &str, body: &str) -> Value {
        match self.http(host, method, path, body) {
            Ok((status, value)) => {
                assert_eq!(status, 200, "expected 200 from {method} {path}: {value}");
                value
            }
            Err(_) => panic!("{method} {path} is still waiting"),
        }
    }
}

fn parse_response(response: &str) -> (u16, Value) {
    let (head, body) = response.split_once("\r\n\r\n").unwrap();
    let status = head.split_whitespace().nth(1).unwrap().parse().unwrap();
    assert!(head.contains(&format!("Content-Length: {}", body.len())));
    (status, serde_json::from_str(body).unwrap())
}

fn field<'a>(line: &'a str, prefix: &str) -> &'a str {
    line.split_whitespace()
        .find_map(|part| part.strip_prefix(prefix))
        .unwrap_or_else(|| panic!("missing {prefix} in {line}"))
}

fn holder_body(v: &Value) -> String {
    format!("{{\"holder\":\"{}\"}}", v["holder"].as_str().unwrap())
}

#[test]
fn external_tcp_and_http_clients_share_exclusive_locks() {
    let mut cluster = TestCluster::start(3);

    let first = cluster.text(0, "ACQUIRE shared-lock").unwrap();
    assert_eq!(first, "ACQUIRED shared-lock fence=1 holder=h0000000000000001");

    let waiting = cluster
        .http(1, "POST", "/locks/shared-lock/acquire", "{}")
        .expect_err("HTTP client acquired while TCP client still held the exclusive lock");
    assert!(cluster.http_outcome(1, waiting).is_none());

    let released = cluster
        .text(0, &format!("RELEASE {}", field(&first, "holder=")))
        .unwrap();
    assert_eq!(released, "RELEASED shared-lock");
    let (status, second) = cluster
        .http_outcome(1, waiting)
        .expect("HTTP client should acquire after TCP release");
    assert_eq!(status, 200);
    assert_eq!(second["ok"], true);
    assert_eq!(second["lock"], "shared-lock");
    assert!(
        second["fence"].as_u64().unwrap() > field(&first, "fence=").parse::<u64>().unwrap(),
        "handoff should raise the fence token"
    );
    let done = cluster.http_ok(1, "POST", "/locks/shared-lock/release", &holder_body(&second));
    assert_eq!(done["lock"], "shared-lock");
}

#[test]
fn external_tcp_and_http_clients_can_use_bounded_semaphores() {
    let mut cluster = TestCluster::start(3);

    let first = cluster.http_ok(0, "POST", "/semaphores/rate-limiter/acquire", "{\"limit\": 2}");
    assert_eq!(first["ok"], true);

    let second = cluster.text(1, "SEMACQUIRE 2 rate-limiter").unwrap();
    assert!(second.starts_with("SEMACQUIRED "), "{second}");
    assert_ne!(
        first["permit"].as_u64().unwrap(),
        field(&second, "permit=").parse::<u64>().unwrap(),
        "two concurrent holders should occupy different semaphore permits"
    );

    let third = cluster
        .http(2, "POST", "/semaphores/rate-limiter/acquire", "{\"limit\": 2}")
        .expect_err("third client acquired a capacity-2 semaphore while two holders were active");

    let released = cluster.http_ok(0, "POST", "/semaphores/release", &holder_body(&first));
    assert_eq!(released["semaphore"], "rate-limiter");
    let (status, third) = cluster
        .http_outcome(2, third)
        .expect("third semaphore client should acquire after a permit release");
    assert_eq!(status, 200);
    assert_eq!(third["ok"], true);
    assert_eq!(third["semaphore"], "rate-limiter");
    assert_eq!(third["limit"], 2);

    let line = cluster
        .text(1, &format!("RELEASE {}", field(&second, "holder=")))
        .unwrap();
    assert!(line.starts_with("SEMRELEASED "), "{line}");
    cluster.http_ok(2, "POST", "/semaphores/release", &holder_body(&third));

    // Everything is free again: both permits can be had at one node.
    cluster.http_ok(0, "POST", "/semaphores/rate-limiter/acquire", "{\"limit\": 2}");
    cluster.http_ok(0, "POST", "/semaphores/rate-limiter/acquire", "{\"limit\": 2}");
}

#[test]
fn external_clients_can_use_rw_locks() {
    let mut cluster = TestCluster::start(3);

    let first = cluster.http_ok(0, "POST", "/rwlocks/document/read-acquire", "{\"limit\": 2}");
    assert_eq!(first["ok"], true);
    assert_eq!(first["mode"], "read");

    let second = cluster.text(1, "RACQUIRE 2 document").unwrap();
    assert_eq!(field(&second, "mode="), "read");
    assert_ne!(
        first["permit"].as_u64().unwrap(),
        field(&second, "permit=").parse::<u64>().unwrap(),
        "two active readers should occupy different RW reader permits"
    );

    let line = cluster
        .text(1, &format!("RELEASE {}", field(&second, "holder=")))
        .unwrap();
    assert!(line.starts_with("RWRELEASED document mode=read limit=2 permit="), "{line}");

    let writer = cluster
        .http(2, "POST", "/rwlocks/document/write-acquire", "{\"limit\": 2}")
        .expect_err("writer acquired while a reader still held the RW lock");
    let late_reader = cluster
        .http(0, "POST", "/rwlocks/document/read-acquire", "{\"limit\": 2}")
        .expect_err("new reader slipped in while a writer was waiting at the RW gate");

    cluster.http_ok(0, "POST", "/rwlocks/release", &holder_body(&first));

    let (_, writer) = cluster
        .http_outcome(2, writer)
        .expect("writer should acquire after the active reader releases");
    assert_eq!(writer["ok"], true);
    assert_eq!(writer["mode"], "write");
    assert!(
        cluster.http_outcome(0, late_reader).is_none(),
        "reader acquired while writer held the RW lock"
    );

    // The name must be that of the RW lock.
    let (status, refused) = cluster
        .http(2, "POST", "/rwlocks/other/release", &holder_body(&writer))
        .unwrap();
    assert_eq!(status, 409);
    assert_eq!(refused["error"], "holder_mismatch");

    let released = cluster.http_ok(2, "POST", "/rwlocks/document/release", &holder_body(&writer));
    assert_eq!(released["mode"], "write");
    let (_, late_reader) = cluster
        .http_outcome(0, late_reader)
        .expect("reader should acquire after writer release");
    assert_eq!(late_reader["ok"], true);
    assert_eq!(late_reader["mode"], "read");
    cluster.http_ok(0, "POST", "/rwlocks/release", &holder_body(&late_reader));
}

#[test]
fn clients_of_one_node_queue_up() {
    let mut cluster = TestCluster::start(3);
    let first = cluster.text(0, "ACQUIRE A").unwrap();
    let second = cluster.text(0, "ACQUIRE A").unwrap_err();
    let third = cluster.text(0, "{\"op\":\"acquire\",\"lock\":\"A\"}").unwrap_err();
    cluster.text(0, &format!("RELEASE {}", field(&first, "holder="))).unwrap();
    let second = match cluster.outcome(0, second) {
        Some(Ok(Answer::Lock(a))) => a,
        other => panic!("{other:?}"),
    };
    assert!(cluster.outcome(0, third).is_none());
    assert_eq!(second.fence, 2);
    assert_eq!(second.holder, "h0000000000000002");
    // The old token is worth nothing now.
    let line = cluster
        .text(0, &format!("RELEASE {}", field(&first, "holder=")))
        .unwrap();
    assert_eq!(line, "ERROR not_held holder token does not refer to a held lock");
    let line = cluster.text(0, "{\"op\":\"release\",\"holder\":\"h0000000000000002\"}").unwrap();
    assert_eq!(line, "{\"ok\":true,\"lock\":\"A\"}");
    assert!(cluster.outcome(0, third).is_some());
}

#[test]
fn writers_take_the_highest_fence_of_their_locks() {
    let mut cluster = TestCluster::start(1);
    // Raise the fence of one reader slot.
    for _ in 0..3 {
        let line = cluster.text(0, "RACQUIRE 2 doc").unwrap();
        assert_eq!(field(&line, "permit="), "0");
        cluster.text(0, &format!("RELEASE {}", field(&line, "holder="))).unwrap();
    }
    let line = cluster.text(0, "WACQUIRE 2 doc").unwrap();
    assert_eq!(line, "RWACQUIRED doc mode=write limit=2 fence=4 holder=rw0000000000000004");
    let line = cluster.text(0, "RELEASE rw0000000000000004").unwrap();
    assert_eq!(line, "RWRELEASED doc mode=write limit=2");
}

#[test]
fn a_stopped_coordinator_ends_calls() {
    let mut client = LockClient::new();
    let call = client.acquire("A".to_string());
    let call = client.hear(call, Heard::Stopped);
    assert_eq!(call.outcome(), Some(&Err(ClientError::Stopped)));

    let call = client.acquire_semaphore("pool".to_string(), 3);
    let call = client.hear(call, Heard::Stopped);
    assert_eq!(call.outcome(), Some(&Err(ClientError::Stopped)));
}

#[test]
fn bad_requests_end_at_once() {
    let mut client = LockClient::new();
    let call = client.acquire(String::new());
    assert_eq!(call.outcome(), Some(&Err(ClientError::EmptyLock)));
    let call = client.acquire_semaphore("pool".to_string(), 1);
    assert_eq!(call.outcome(), Some(&Err(ClientError::BadLimit)));
    let call = client.acquire_read("doc".to_string(), 101);
    assert_eq!(call.outcome(), Some(&Err(ClientError::BadLimit)));
    let call = client.acquire_write(String::new(), 2);
    assert_eq!(call.outcome(), Some(&Err(ClientError::EmptyLock)));
    let call = client.release_rw_lock("doc".to_string(), "rw0000000000000001".to_string());
    assert_eq!(call.outcome(), Some(&Err(ClientError::NotHeld)));
}

#[test]
fn a_semaphore_asks_for_every_permit_and_withdraws() {
    let mut client = LockClient::new();
    let mut call = client.acquire_semaphore("api".to_string(), 3);
    let asks = call.take_asks();
    assert_eq!(asks.len(), 3);
    match &asks[2] {
        Ask::Acquire { lock, waiter, .. } => {
            assert_eq!(lock, "__lmx_sem_v1:3:2:617069");
            assert_eq!(*waiter, 3);
        }
        other => panic!("{other:?}"),
    }
    let acquired = live_mutex_mills::client_api::ClientAcquire {
        lock: "api".to_string(),
        fence: 7,
        holder: "h0000000000000009".to_string(),
    };
    let mut call = client.hear(call, Heard::Acquired(2, Ok(acquired)));
    assert_eq!(
        call.take_asks(),
        vec![
            Ask::CancelAcquire { lock: "__lmx_sem_v1:3:0:617069".to_string(), waiter: 1 },
            Ask::CancelAcquire { lock: "__lmx_sem_v1:3:2:617069".to_string(), waiter: 3 },
        ]
    );
    match call.outcome() {
        Some(Ok(Answer::Semaphore(a))) => {
            assert_eq!((a.limit, a.permit, a.fence), (3, 1, 7));
            assert_eq!(a.holder, "h0000000000000009");
        }
        other => panic!("{other:?}"),
    }
}

#[test]
fn a_writer_that_fails_gives_everything_back() {
    let mut client = LockClient::new();
    let acquired = |holder: &str| live_mutex_mills::client_api::ClientAcquire {
        lock: String::new(),
        fence: 1,
        holder: holder.to_string(),
    };
    let mut call = client.acquire_write("d".to_string(), 3);
    assert!(matches!(&call.take_asks()[0], Ask::Acquire { lock, .. } if lock == "__lmx_rw_v1:3:gate:64"));
    call = client.hear(call, Heard::Acquired(1, Ok(acquired("gate"))));
    call = client.hear(call, Heard::Acquired(2, Ok(acquired("slot0"))));
    call = client.hear(call, Heard::Acquired(3, Ok(acquired("slot1"))));
    call = client.hear(call, Heard::Acquired(4, Err(ClientError::Stopped)));
    let mut given_back = Vec::new();
    while call.outcome().is_none() {
        for ask in call.take_asks() {
            match ask {
                Ask::Release { lock, holder } => given_back.push((lock.unwrap(), holder)),
                other => panic!("{other:?}"),
            }
        }
        call = client.hear(call, Heard::Released(Err(ClientError::NotHeld)));
    }
    assert_eq!(call.outcome(), Some(&Err(ClientError::Stopped)));
    let expected: Vec<(String, String)> = [
        ("__lmx_rw_v1:3:slot:1:64", "slot1"),
        ("__lmx_rw_v1:3:slot:0:64", "slot0"),
        ("__lmx_rw_v1:3:gate:64", "gate"),
    ]
    .iter()
    .map(|(l, h)| (l.to_string(), h.to_string()))
    .collect();
    assert_eq!(given_back, expected);
}

#[test]
fn a_reader_that_cannot_release_the_gate_gives_its_slot_back() {
    let mut client = LockClient::new();
    let acquired = |holder: &str| live_mutex_mills::client_api::ClientAcquire {
        lock: String::new(),
        fence: 1,
        holder: holder.to_string(),
    };
    let mut call = client.acquire_read("d".to_string(), 2);
    call = client.hear(call, Heard::Acquired(1, Ok(acquired("gate"))));
    call = client.hear(call, Heard::Acquired(3, Ok(acquired("slot1"))));
    call = client.hear(call, Heard::Released(Err(ClientError::NotHeld)));
    assert_eq!(
        call.take_asks(),
        vec![Ask::Release {
            lock: Some("__lmx_rw_v1:2:slot:1:64".to_string()),
            holder: "slot1".to_string(),
        }]
    );
    assert!(matches!(call.stage, Stage::ReadUndo { .. }));
    call = client.hear(call, Heard::Stopped);
    assert_eq!(call.outcome(), Some(&Err(ClientError::NotHeld)));
    assert_eq!(RwMode::Read.as_str(), "read");
}
