//! What holds over whole runs, on concrete ones.
use live_mutex_mills::client_api::{
    Answer, Ask, Call, ClientError, ClientResource, Heard, LockClient, Stage,
};
use live_mutex_mills::composite::{Composite, Progress};
use live_mutex_mills::coordinator::Coordinator;
use live_mutex_mills::sim::Sim;
use live_mutex_mills::transport::NodeEvent;
use live_mutex_mills::{Fence, Message, Node, NodeId, Outgoing, RequestId, LEASE};

fn requested(out: &[Outgoing]) -> RequestId {
    out.iter()
        .find_map(|o| match &o.msg {
            Message::Request { req, .. } => Some(*req),
            _ => None,
        })
        .expect("a request")
}

fn granted(out: &[Outgoing], name: &str) -> Vec<RequestId> {
    out.iter()
        .filter_map(|o| match &o.msg {
            Message::Grant { lock, req, .. } if lock == name => Some(*req),
            _ => None,
        })
        .collect()
}

fn request(lock: &str, ts: u64, node: NodeId) -> Message {
    Message::Request { lock: lock.to_string(), req: RequestId { ts, node } }
}

#[test]
fn request_ids_grow_past_everything_sent_and_heard() {
    let mut node = Node::new(0, vec![0, 1, 2]);
    node.request(0, "a");
    let first = requested(&node.drain_outbox());
    assert_eq!(first, RequestId { ts: 1, node: 0 });
    node.handle(0, 1, request("b", 40, 1));
    node.request(0, "c");
    let second = requested(&node.drain_outbox());
    assert_eq!(second.node, 0);
    assert!(second.ts > 40);
    node.release(0, "a");
    node.drain_outbox();
    node.request(0, "a");
    let third = requested(&node.drain_outbox());
    assert!(third.ts > second.ts);
    // A request of somebody who is no member is not heard of.
    node.handle(0, 9, request("d", 1000, 9));
    node.request(0, "d");
    assert_eq!(requested(&node.drain_outbox()).ts, third.ts + 1);
}

#[test]
fn a_vote_is_given_again_once_it_has_come_back() {
    let mut node = Node::new(0, vec![0, 1, 2]);
    node.handle(0, 1, request("a", 1, 1));
    assert_eq!(granted(&node.drain_outbox(), "a"), vec![RequestId { ts: 1, node: 1 }]);
    node.handle(0, 2, request("a", 2, 2));
    node.handle(0, 2, request("b", 3, 2));
    let out = node.drain_outbox();
    assert!(granted(&out, "a").is_empty());
    assert_eq!(granted(&out, "b"), vec![RequestId { ts: 3, node: 2 }]);
    // A release by somebody else is not one.
    let release = Message::Release {
        lock: "a".to_string(),
        req: RequestId { ts: 1, node: 1 },
        fence: 0,
    };
    node.handle(0, 2, release.clone());
    assert!(granted(&node.drain_outbox(), "a").is_empty());
    node.handle(0, 1, release);
    assert_eq!(granted(&node.drain_outbox(), "a"), vec![RequestId { ts: 2, node: 2 }]);
    // A lapsed lease brings the vote back too, and the votee is told.
    node.handle(0, 1, request("a", 9, 1));
    node.drain_outbox();
    node.tick(LEASE + 1);
    let out = node.drain_outbox();
    assert_eq!(granted(&out, "a"), vec![RequestId { ts: 9, node: 1 }]);
    assert!(out.iter().any(|o| o.to == 2
        && matches!(&o.msg, Message::Revoked { lock, req }
            if lock == "a" && *req == RequestId { ts: 2, node: 2 })));
}

#[test]
fn messages_that_nobody_may_send_change_nothing() {
    let mut node = Node::new(0, vec![0, 1, 2]);
    node.request(0, "a");
    let req = requested(&node.drain_outbox());
    let grant = |req| Message::Grant { lock: "a".to_string(), req, fence: 3 };
    node.handle(0, 7, grant(req));
    node.handle(0, 1, grant(RequestId { ts: 1, node: 1 }));
    node.handle(0, 1, request("a", 5, 2));
    node.handle(0, 7, request("a", 5, 7));
    assert!(node.drain_outbox().is_empty());
    assert!(node.take_acquired().is_empty());
    assert_eq!(node.clock(), req.ts);
}

/// Everything that is reported, in order, with the time of its delivery.
fn play(seed: u64) -> Vec<(usize, NodeId, String, Fence)> {
    let mut sim = Sim::with_seed(5, seed);
    for node in 0..5 {
        sim.request(node, "a");
        sim.request(node, "b");
    }
    let mut told = Vec::new();
    let mut at = 0;
    loop {
        let new = sim.drain_acquired();
        let quiet = new.is_empty();
        for (node, lock, fence) in new {
            sim.release(node, &lock);
            told.push((at, node, lock, fence));
        }
        let before = sim.now();
        let idle = sim.idle();
        let delivered = sim.step();
        assert_eq!(delivered, !idle);
        assert_eq!(sim.now(), before);
        at += 1;
        if !delivered && quiet {
            return told;
        }
    }
}

#[test]
fn runs_are_reproducible_from_their_seed() {
    for seed in [0, 1, 7, 0xFEED] {
        assert_eq!(play(seed), play(seed));
    }
    assert_ne!(play(1), play(2));
}

#[test]
fn every_requested_lock_is_reported_once_with_a_growing_token() {
    for seed in 1..40 {
        let told = play(seed);
        for lock in ["a", "b"] {
            let mine: Vec<_> = told.iter().filter(|t| t.2 == lock).collect();
            let mut nodes: Vec<NodeId> = mine.iter().map(|t| t.1).collect();
            nodes.sort();
            assert_eq!(nodes, vec![0, 1, 2, 3, 4]);
            for pair in mine.windows(2) {
                assert!(pair[1].3 > pair[0].3);
            }
        }
    }
}

/// Take what the coordinator offers.
fn take(k: &mut Coordinator, lock: &str, fence: Fence) -> (u64, String) {
    assert!(k.handle_node_event(&NodeEvent::Acquired(lock.to_string(), fence)).is_empty());
    let (waiter, got) = k.offer().expect("an offer");
    assert!(k.settle(true).is_empty());
    (waiter, got.holder)
}

fn release(c: &mut LockClient, k: &mut Coordinator, token: &str) -> Call {
    let mut call = c.release(token.to_string());
    loop {
        let mut asks = call.take_asks();
        match asks.pop() {
            None => return call,
            Some(Ask::Release { lock, holder }) => {
                let (answer, _) = k.release_holder(lock.as_deref(), &holder);
                call = c.hear(call, Heard::Released(answer));
            }
            Some(_) => panic!("a release asks for releases"),
        }
    }
}

#[test]
fn a_token_releases_once_over_client_and_coordinator() {
    let mut c = LockClient::new();
    let mut k = Coordinator::new();
    k.acquire("a".to_string(), 1, ClientResource::Lock { lock: "a".to_string() }).unwrap();
    let (_, token) = take(&mut k, "a", 3);
    match release(&mut c, &mut k, &token).stage {
        Stage::Done(Ok(Answer::Release(r))) => assert_eq!(r.lock, "a"),
        _ => panic!("expected a release"),
    }
    for unknown in [token.as_str(), "h00000000000000ff", "rw0000000000000001", ""] {
        assert!(matches!(
            release(&mut c, &mut k, unknown).stage,
            Stage::Done(Err(ClientError::NotHeld))
        ));
    }
}

#[test]
fn semaphores_give_distinct_permits_below_their_limit() {
    let mut c = LockClient::new();
    let mut k = Coordinator::new();
    let mut permits = Vec::new();
    for _ in 0..2 {
        let mut call = c.acquire_semaphore("s".to_string(), 2);
        let mut wanted = Vec::new();
        for ask in call.take_asks() {
            match ask {
                Ask::Acquire { lock, waiter, resource } => {
                    k.acquire(lock.clone(), waiter, resource).unwrap();
                    wanted.push((lock, waiter));
                }
                _ => panic!("an acquisition asks for locks"),
            }
        }
        assert_eq!(wanted.len(), 2);
        // The node acquires the first lock that is free.
        let free = permits.len();
        k.handle_node_event(&NodeEvent::Acquired(wanted[free].0.clone(), 1));
        let (waiter, got) = k.offer().expect("an offer");
        assert_eq!(waiter, wanted[free].1);
        k.settle(true);
        let mut call = c.hear(call, Heard::Acquired(waiter, Ok(got)));
        let withdrawn = call.take_asks();
        assert_eq!(withdrawn.len(), 1);
        for ask in withdrawn {
            match ask {
                Ask::CancelAcquire { lock, waiter } => k.cancel_acquire(&lock, waiter),
                _ => panic!("the other permit is withdrawn"),
            };
        }
        match call.stage {
            Stage::Done(Ok(Answer::Semaphore(a))) => {
                assert_eq!((a.semaphore.as_str(), a.limit), ("s", 2));
                assert!(a.permit < 2);
                assert!(!permits.contains(&a.permit));
                permits.push(a.permit);
            }
            _ => panic!("expected a permit"),
        }
    }
    assert_eq!(permits, vec![0, 1]);
}

#[test]
fn a_request_that_is_sent_again_waits_once() {
    let mut node = Node::new(0, vec![0, 1, 2]);
    node.handle(0, 1, request("a", 1, 1));
    for _ in 0..50 {
        node.handle(0, 2, request("a", 2, 2));
    }
    node.drain_outbox();
    let release = |ts, node| Message::Release {
        lock: "a".to_string(),
        req: RequestId { ts, node },
        fence: 0,
    };
    node.handle(0, 1, release(1, 1));
    assert_eq!(granted(&node.drain_outbox(), "a"), vec![RequestId { ts: 2, node: 2 }]);
    node.handle(0, 2, release(2, 2));
    assert!(granted(&node.drain_outbox(), "a").is_empty());
}

#[test]
fn what_is_withdrawn_is_gone() {
    let mut c = LockClient::new();
    let mut k = Coordinator::new();
    let mut call = c.acquire_semaphore("s".to_string(), 3);
    let mut asked = Vec::new();
    for ask in call.take_asks() {
        match ask {
            Ask::Acquire { lock, waiter, resource } => {
                k.acquire(lock.clone(), waiter, resource).unwrap();
                asked.push((lock, waiter));
            }
            _ => panic!("an acquisition asks for locks"),
        }
    }
    // Two of the three are acquired before the client hears of any.
    let (_, first) = take(&mut k, &asked[0].0, 1);
    let (_, second) = take(&mut k, &asked[1].0, 2);
    assert_ne!(first, second);
    for (lock, waiter) in &asked[1..] {
        let commands = k.cancel_acquire(lock, *waiter);
        let held = *lock == asked[1].0;
        assert_eq!(commands.len(), if held { 1 } else { 0 });
    }
    assert_eq!(k.release_holder(None, &second).0, Err(ClientError::NotHeld));
    // Nobody is left to take the third.
    let released = k.handle_node_event(&NodeEvent::Acquired(asked[2].0.clone(), 3));
    assert_eq!(released.len(), 1);
    assert!(k.offer().is_none());
    assert_eq!(k.release_holder(None, &first).0.unwrap().permit, Some(0));
}

#[test]
fn composites_that_share_a_key_are_not_held_at_once() {
    for seed in 1..30 {
        let mut sim = Sim::with_seed(3, seed);
        let keys = [["a", "b"], ["b", "c"]];
        let mut composites: Vec<Composite> = keys
            .iter()
            .map(|k| Composite::new(&[k[0].to_string(), k[1].to_string()]).unwrap())
            .collect();
        for (node, composite) in composites.iter().enumerate() {
            sim.request(node as NodeId, composite.pending().unwrap());
        }
        while sim.step() {
            for (node, lock, fence) in sim.drain_acquired() {
                if let Progress::Next(key) = composites[node as usize].on_acquired(&lock, fence) {
                    sim.request(node, &key);
                }
            }
            assert!(!(composites[0].is_held() && composites[1].is_held()));
        }
        assert!(composites[0].is_held() || composites[1].is_held());
    }
}
