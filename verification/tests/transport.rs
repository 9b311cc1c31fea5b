use live_mutex_mills::codec::WireCodec;
use live_mutex_mills::transport::{
    hello_line, read_frame, read_hello, Command, Delivery, Driver, Ev, Frame, NodeEvent,
};
use live_mutex_mills::{Message, QuorumPolicy, RequestId};

fn wires(driver: &mut Driver, to: u32) -> Vec<Message> {
    let mut out = Vec::new();
    while let Some(delivery) = driver.next_send() {
        if let Delivery::Wire(peer, msg) = delivery {
            if peer == to {
                out.push(msg);
            }
        }
    }
    out
}

fn lock_of(msg: &Message) -> &str {
    match msg {
        Message::Request { lock, .. } | Message::Release { lock, .. } => lock,
        other => panic!("{other:?}"),
    }
}

#[test]
fn three_nodes_over_tcp_take_turns() {
    let n = 3u32;
    let mut drivers: Vec<Driver> =
        (0..n).map(|id| Driver::new(id, n, QuorumPolicy::Majority)).collect();
    let mut inboxes: Vec<Vec<Ev>> = (0..n)
        .map(|id| (0..n).filter(|p| *p != id).map(Ev::Conn).collect())
        .collect();
    for inbox in inboxes.iter_mut() {
        inbox.push(Ev::Cmd(Command::Acquire("A".to_string())));
    }
    let mut fences = Vec::new();
    let mut held = 0;
    let mut quiet = false;
    while !quiet {
        quiet = true;
        for id in 0..n as usize {
            if inboxes[id].is_empty() {
                continue;
            }
            quiet = false;
            let ev = inboxes[id].remove(0);
            drivers[id].handle(0, ev);
            while let Some(delivery) = drivers[id].next_send() {
                match delivery {
                    Delivery::Here(msg) => inboxes[id].push(Ev::In(id as u32, msg)),
                    Delivery::Wire(to, msg) => inboxes[to as usize].push(Ev::In(id as u32, msg)),
                }
            }
            for event in drivers[id].take_reports() {
                match event {
                    NodeEvent::Acquired(lock, fence) => {
                        held += 1;
                        assert_eq!(held, 1, "two holders of {lock} at once (fence {fence})");
                        fences.push(fence);
                        held -= 1;
                        inboxes[id].push(Ev::Cmd(Command::Release(lock)));
                    }
                    NodeEvent::Info(text) => assert!(text.starts_with("connected to node ")),
                    NodeEvent::Lost(lock) => panic!("lost {lock}"),
                }
            }
        }
    }
    assert_eq!(fences.len(), 3, "all three nodes should acquire; got {fences:?}");
    for w in fences.windows(2) {
        assert!(w[1] > w[0], "fence tokens must strictly increase: {fences:?}");
    }
}

#[test]
fn messages_wait_for_a_connection_in_order() {
    let mut driver = Driver::new(0, 2, QuorumPolicy::Majority);
    for lock in ["a", "b"] {
        driver.handle(0, Ev::Cmd(Command::Acquire(lock.to_string())));
        assert!(wires(&mut driver, 1).is_empty());
    }
    driver.handle(0, Ev::Cmd(Command::Release("a".to_string())));
    assert!(wires(&mut driver, 1).is_empty());
    driver.handle(0, Ev::Conn(1));
    let sent = wires(&mut driver, 1);
    let locks: Vec<&str> = sent.iter().map(lock_of).collect();
    assert_eq!(locks, vec!["a", "b", "a"]);
    assert!(matches!(sent[2], Message::Release { .. }));
    assert_eq!(
        driver.take_reports(),
        vec![NodeEvent::Info("connected to node 1".to_string())]
    );
    // Now that there is a connection, messages go out at once.
    driver.handle(0, Ev::Cmd(Command::Acquire("c".to_string())));
    assert_eq!(wires(&mut driver, 1).len(), 1);
}

#[test]
fn a_broken_connection_drops_what_it_was_given() {
    let mut driver = Driver::new(0, 2, QuorumPolicy::Majority);
    driver.handle(0, Ev::Cmd(Command::Acquire("a".to_string())));
    wires(&mut driver, 1);
    driver.handle(0, Ev::Cmd(Command::Acquire("b".to_string())));
    wires(&mut driver, 1);
    driver.handle(0, Ev::Conn(1));
    assert!(matches!(driver.next_send(), Some(Delivery::Wire(1, _))));
    driver.disconnected(1);
    assert!(wires(&mut driver, 1).is_empty());
    // What is sent later waits for the next connection.
    driver.handle(0, Ev::Cmd(Command::Acquire("c".to_string())));
    assert!(wires(&mut driver, 1).is_empty());
    driver.handle(0, Ev::Conn(1));
    let sent = wires(&mut driver, 1);
    assert_eq!(sent.iter().map(lock_of).collect::<Vec<_>>(), vec!["c"]);
}

#[test]
fn shutdown_stops() {
    let mut driver = Driver::new(0, 1, QuorumPolicy::Grid);
    assert!(!driver.stopped());
    assert_eq!(driver.clock(), 0);
    driver.handle(0, Ev::Cmd(Command::Acquire("a".to_string())));
    assert_eq!(driver.clock(), 1);
    assert!(matches!(driver.next_send(), Some(Delivery::Here(_))));
    driver.handle(500, Ev::Tick);
    driver.handle(500, Ev::Cmd(Command::Shutdown));
    assert!(driver.stopped());
}

#[test]
fn greetings_read_back() {
    for codec in [WireCodec::Text, WireCodec::Json, WireCodec::Msgpack] {
        let line = format!("{}\n", hello_line(7, codec));
        assert_eq!(read_hello(&line, 1024), Some((7, codec)));
    }
    assert_eq!(hello_line(7, WireCodec::Json), "HELLO 7 json");
    assert_eq!(read_hello("HELLO 3", 1024), Some((3, WireCodec::Text)));
    assert_eq!(read_hello("HELLO 3 MessagePack", 1024), Some((3, WireCodec::Msgpack)));
    for bad in ["", "HELLO", "HELLO x", "hello 3", "HELLO 3 xml", "HELLO 3 text more", "HELLO 4294967296"] {
        assert_eq!(read_hello(bad, 1024), None, "{bad}");
    }
    assert_eq!(read_hello("HELLO 3", 6), None);
}

#[test]
fn frames_are_read_or_refused() {
    let msg = Message::Renew {
        lock: "a b".to_string(),
        req: RequestId { ts: 5, node: 1 },
    };
    for codec in [WireCodec::Text, WireCodec::Json, WireCodec::Msgpack] {
        let line = format!(" {}\r\n", codec.encode_line(&msg));
        match read_frame(codec, &line, 4096) {
            Frame::Deliver(m) => assert_eq!(m, msg),
            other => panic!("{other:?}"),
        }
        assert!(matches!(read_frame(codec, &line, 5), Frame::Close));
        assert!(matches!(read_frame(codec, "what?", 4096), Frame::Skip));
    }
}
