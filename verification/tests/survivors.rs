//! What survivors of crashes keep, and in which order requests are served.

use live_mutex_mills::sim::Sim;
use live_mutex_mills::{
    Fence, Message, Node, NodeId, Outgoing, QuorumPolicy, RequestId, LEASE, RENEW_INTERVAL,
};

/// Deliver everything in flight.
fn settle(sim: &mut Sim) {
    while sim.step() {}
}

/// Who has come to hold `lock` since the last call.
fn acquired(sim: &mut Sim, lock: &str) -> Vec<(NodeId, Fence)> {
    sim.drain_acquired()
        .into_iter()
        .filter(|(_, l, _)| l == lock)
        .map(|(n, _, fence)| (n, fence))
        .collect()
}

fn request(req: RequestId) -> Message {
    Message::Request { lock: "A".to_string(), req }
}

fn id(ts: u64, node: NodeId) -> RequestId {
    RequestId { ts, node }
}

fn inquiries(out: &[Outgoing]) -> Vec<RequestId> {
    out.iter()
        .filter_map(|o| match &o.msg {
            Message::Inquire { req, .. } => Some(*req),
            _ => None,
        })
        .collect()
}

#[test]
fn live_holders_keep_the_lock_for_a_long_time() {
    for policy in [QuorumPolicy::Majority, QuorumPolicy::Grid] {
        let mut sim = Sim::with_seed_policy(5, 3, policy);
        sim.request(2, "A");
        settle(&mut sim);
        assert_eq!(acquired(&mut sim, "A"), vec![(2, 1)]);
        sim.request(4, "A");
        for dt in [1, RENEW_INTERVAL - 1, RENEW_INTERVAL + 1, LEASE, 20 * LEASE] {
            sim.advance(dt);
            assert!(sim.nodes[2].take_lost().is_empty());
            assert!(acquired(&mut sim, "A").is_empty());
        }
        sim.release(2, "A");
        settle(&mut sim);
        assert_eq!(acquired(&mut sim, "A"), vec![(4, 2)]);
    }
}

#[test]
fn crashes_of_others_leave_a_live_holder_alone() {
    let mut sim = Sim::with_seed(5, 11);
    sim.request(0, "A");
    settle(&mut sim);
    assert_eq!(acquired(&mut sim, "A"), vec![(0, 1)]);
    sim.request(1, "A");
    sim.request(2, "A");
    settle(&mut sim);
    sim.crash(1);
    sim.crash(3);
    sim.advance(5 * LEASE);
    assert!(sim.nodes[0].take_lost().is_empty());
    assert!(acquired(&mut sim, "A").is_empty());
    // The crashed node was next in line; once its lease is over, the lock goes on
    // to the next survivor.
    sim.release(0, "A");
    settle(&mut sim);
    assert!(acquired(&mut sim, "A").is_empty());
    sim.advance(LEASE - 1);
    assert!(acquired(&mut sim, "A").is_empty());
    sim.advance(1);
    assert_eq!(acquired(&mut sim, "A"), vec![(2, 2)]);
}

#[test]
fn everybody_is_served_within_as_many_rounds_as_there_are_others() {
    for seed in 1..40u64 {
        let n: usize = 7;
        let mut sim = Sim::with_seed(n, seed);
        for p in 0..n as NodeId {
            sim.request(p, "A");
        }
        settle(&mut sim);
        let mut served: Vec<NodeId> = Vec::new();
        let mut tokens: Vec<Fence> = Vec::new();
        for _ in 0..n {
            let now = acquired(&mut sim, "A");
            assert_eq!(now.len(), 1);
            let (holder, fence) = now[0];
            served.push(holder);
            tokens.push(fence);
            sim.release(holder, "A");
            settle(&mut sim);
        }
        assert!(acquired(&mut sim, "A").is_empty());
        assert_eq!(tokens, (1..=n as Fence).collect::<Vec<_>>());
        served.sort_unstable();
        assert_eq!(served, (0..n as NodeId).collect::<Vec<_>>());
    }
}

#[test]
fn votes_are_asked_back_for_smaller_requests_alone() {
    let mut node = Node::new(0, vec![0, 1, 2, 3]);
    node.handle(0, 2, request(id(5, 2)));
    node.drain_outbox();
    // A larger request waits without a word.
    node.handle(0, 3, request(id(5, 3)));
    assert!(node.drain_outbox().is_empty());
    // A smaller one has the votee asked, once.
    node.handle(0, 1, request(id(5, 1)));
    assert_eq!(inquiries(&node.drain_outbox()), vec![id(5, 2)]);
    node.handle(0, 1, request(id(4, 1)));
    assert!(node.drain_outbox().is_empty());
    // Time asks nobody.
    node.tick(RENEW_INTERVAL);
    assert!(inquiries(&node.drain_outbox()).is_empty());
}

#[test]
fn a_returned_vote_goes_to_the_smallest_that_waits() {
    let mut node = Node::new(0, vec![0, 1, 2, 3]);
    node.handle(0, 2, request(id(2, 2)));
    node.handle(0, 3, request(id(1, 3)));
    node.handle(0, 1, request(id(3, 1)));
    node.drain_outbox();
    let grants = |out: Vec<Outgoing>| -> Vec<RequestId> {
        out.into_iter()
            .filter_map(|o| match o.msg {
                Message::Grant { req, .. } => Some(req),
                _ => None,
            })
            .collect()
    };
    node.handle(0, 2, Message::Yield { lock: "A".to_string(), req: id(2, 2) });
    assert_eq!(grants(node.drain_outbox()), vec![id(1, 3)]);
    node.handle(0, 3, Message::Release { lock: "A".to_string(), req: id(1, 3), fence: 1 });
    assert_eq!(grants(node.drain_outbox()), vec![id(2, 2)]);
}

#[test]
fn requests_made_after_hearing_of_another_come_behind_it() {
    let mut node = Node::new(0, vec![0, 1, 2]);
    node.handle(0, 2, request(id(41, 2)));
    node.drain_outbox();
    node.request(0, "B");
    let made: Vec<RequestId> = node
        .drain_outbox()
        .iter()
        .filter_map(|o| match &o.msg {
            Message::Request { req, .. } => Some(*req),
            _ => None,
        })
        .collect();
    assert_eq!(made, vec![id(42, 0); 3]);
    // An older request does not turn the clock back.
    node.handle(0, 1, request(id(7, 1)));
    assert_eq!(node.clock(), 42);
    node.request(0, "B");
    node.tick(1);
    assert_eq!(node.clock(), 42);
}

#[test]
fn a_lapsed_vote_moves_on_and_both_are_told() {
    let mut node = Node::new(0, vec![0, 1, 2]);
    node.handle(100, 1, request(id(1, 1)));
    node.handle(100, 2, request(id(2, 2)));
    node.drain_outbox();
    node.tick(100 + LEASE - 1);
    assert!(node.drain_outbox().is_empty());
    node.tick(100 + LEASE);
    let out = node.drain_outbox();
    assert_eq!(out.len(), 2);
    assert_eq!(out[0].to, 1);
    assert_eq!(out[0].msg, Message::Revoked { lock: "A".to_string(), req: id(1, 1) });
    assert_eq!(out[1].to, 2);
    assert_eq!(out[1].msg, Message::Grant { lock: "A".to_string(), req: id(2, 2), fence: 0 });
}

#[test]
fn a_majority_survives_a_minority_of_crashes_and_no_more() {
    let mut sim = Sim::with_seed(5, 5);
    sim.crash(3);
    sim.crash(4);
    sim.request(0, "A");
    settle(&mut sim);
    assert_eq!(acquired(&mut sim, "A"), vec![(0, 1)]);
    sim.release(0, "A");
    settle(&mut sim);
    sim.crash(2);
    sim.request(0, "A");
    settle(&mut sim);
    sim.advance(3 * LEASE);
    assert!(acquired(&mut sim, "A").is_empty());
}

#[test]
fn a_grid_needs_the_whole_row_and_column() {
    let mut sim = Sim::with_seed_policy(9, 5, QuorumPolicy::Grid);
    sim.crash(4);
    // Node 1 shares a column with node 4, node 0 neither row nor column.
    sim.request(1, "A");
    settle(&mut sim);
    sim.advance(LEASE);
    assert!(acquired(&mut sim, "A").is_empty());
    sim.release(1, "A");
    sim.request(0, "A");
    settle(&mut sim);
    assert_eq!(acquired(&mut sim, "A"), vec![(0, 1)]);
}
