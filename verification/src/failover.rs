//! What becomes of the votes for nodes that have crashed.
//!
//! A crashed node no longer renews: as soon as time has passed the lease of a vote
//! that it has, the vote moves on to the next in line, and its request is
//! forgotten for good.
use vstd::prelude::*;

use crate::cluster::{count, sent_to, Event};
use crate::exclusion::{lemma_handle_other_lock, lemma_tick_votes, next_votee};
use crate::model::{arbiter_released, arbiter_yielded, lemma_smallest, ArbiterView, NodeView};
use crate::sim::{lemma_clock_led, lemma_next_link, lemma_step_led, lemma_tick_led, Sim, SimView};
use crate::types::{Instant, MessageKind, MessageView, NodeId, RequestId, LEASE, RENEW_INTERVAL};

verus! {

/// **Lapsed votes move on**: when time passes the lease of a vote, it goes to the
/// first of those who wait, with a new lease; the former votee neither has the vote
/// nor waits for it; both are told.
pub proof fn law_lapsed_votes_move_on(n: NodeView, now: Instant, lock: Seq<char>)
    requires
        n.wf(),
        n.outbox.len() == 0,
        n.arbiter_of(lock).lapsed(now),
        now + LEASE <= u64::MAX,
    ensures
        ({
            let a = n.arbiter_of(lock);
            let b = n.tick(now).arbiter_of(lock);
            let out = n.tick(now).outbox;
            let r = a.voted_for->0;
            &&& b.voted_for == next_votee(a)
            &&& b.voted_for != Some(r) && !b.queue.contains(r)
            &&& count(sent_to(out, r.node), MessageKind::Revoked, lock, r) == 1
            &&& b.voted_for matches Some(v) ==> b.lease == now + LEASE && count(
                sent_to(out, v.node),
                MessageKind::Grant,
                lock,
                v,
            ) == 1
        }),
{
    let a = n.arbiter_of(lock);
    assert(a.wf());
    let r = a.voted_for->0;
    lemma_tick_votes(n, now, lock, r, r.node);
    lemma_next_waits(a);
    if let Some(v) = next_votee(a) {
        lemma_tick_votes(n, now, lock, v, v.node);
    }
}

/// The next in line has waited.
proof fn lemma_next_waits(a: ArbiterView)
    requires
        a.queue.finite(),
    ensures
        next_votee(a) matches Some(v) ==> a.queue.contains(v),
{
    if !(a.queue =~= Set::empty()) {
        if a.queue.len() == 0 {
            assert(a.queue =~= Set::empty());
        }
        lemma_smallest(a.queue);
    }
}

/// Request `r` has the vote until `lease`, or the arbiter does not know of it.
spec fn fades(a: ArbiterView, r: RequestId, lease: Instant) -> bool {
    &&& !a.queue.contains(r)
    &&& a.voted_for == Some(r) ==> a.lease == lease
}

/// The arbiter does not know of request `r`.
pub open spec fn forgotten(a: ArbiterView, r: RequestId) -> bool {
    !a.queue.contains(r) && a.voted_for != Some(r)
}

/// Messages from others than its own node do not bring a request back.
proof fn lemma_handle_fades(
    n: NodeView,
    now: Instant,
    from: NodeId,
    msg: MessageView,
    lock: Seq<char>,
    r: RequestId,
    lease: Instant,
)
    requires
        n.wf(),
        n.outbox.len() == 0,
        from != r.node,
        fades(n.arbiter_of(lock), r, lease),
    ensures
        fades(n.handle(now, from, msg).arbiter_of(lock), r, lease),
        forgotten(n.arbiter_of(lock), r) ==> forgotten(
            n.handle(now, from, msg).arbiter_of(lock),
            r,
        ),
{
    let a = n.arbiter_of(lock);
    assert(a.wf());
    if msg.lock != lock {
        lemma_handle_other_lock(n, now, from, msg, lock);
    } else if msg.kind is Yield {
        lemma_next_waits(arbiter_yielded(a, msg.req));
    } else if msg.kind is Release {
        lemma_next_waits(arbiter_released(a, msg.req, msg.fence));
    }
}

/// Time does not bring a request back, and takes its vote when the lease is over.
proof fn lemma_tick_fades(n: NodeView, now: Instant, lock: Seq<char>, r: RequestId, lease: Instant)
    requires
        n.wf(),
        n.outbox.len() == 0,
        fades(n.arbiter_of(lock), r, lease),
    ensures
        fades(n.tick(now).arbiter_of(lock), r, lease),
        forgotten(n.arbiter_of(lock), r) || now >= lease ==> forgotten(
            n.tick(now).arbiter_of(lock),
            r,
        ),
{
    let a = n.arbiter_of(lock);
    assert(a.wf());
    lemma_tick_votes(n, now, lock, r, r.node);
    lemma_next_waits(a);
}

/// In simulation `s`, live node `x` is done with request `r` of a crashed node
/// when `lease` is over, and at once if `now`.
spec fn done_by(
    s: SimView,
    h: Seq<Event>,
    x: NodeId,
    lock: Seq<char>,
    r: RequestId,
    lease: Instant,
    now: bool,
) -> bool {
    &&& s.led_to_by(h)
    &&& s.alive(x)
    &&& s.dead.contains(r.node)
    &&& s.nodes[x as int].wf()
    &&& fades(s.nodes[x as int].arbiter_of(lock), r, lease)
    &&& now ==> forgotten(s.nodes[x as int].arbiter_of(lock), r)
}

/// A delivery does not bring the request back.
proof fn lemma_step_done(
    s: SimView,
    h: Seq<Event>,
    x: NodeId,
    lock: Seq<char>,
    r: RequestId,
    lease: Instant,
    now: bool,
) -> (h2: Seq<Event>)
    requires
        done_by(s, h, x, lock, r, lease, now),
        s.clock + LEASE <= u64::MAX,
    ensures
        done_by(s.step(), h2, x, lock, r, lease, now),
{
    if s.active().len() == 0 {
        h
    } else {
        let key = s.next_link();
        let m = s.nodes[key.1 as int];
        lemma_next_link(s, h);
        let msg = s.links[key][0];
        let h2 = lemma_step_led(s, h);
        if key.1 == x {
            lemma_handle_fades(m, s.clock, key.0, msg, lock, r, lease);
            m.lemma_handle_wf(s.clock, key.0, msg);
            let n = m.handle(s.clock, key.0, msg);
            assert(s.step().nodes[x as int] == NodeView { outbox: Seq::empty(), ..n });
        }
        h2
    }
}

/// Deliveries do not bring the request back.
proof fn lemma_steps_done(
    s: SimView,
    h: Seq<Event>,
    k: nat,
    x: NodeId,
    lock: Seq<char>,
    r: RequestId,
    lease: Instant,
    now: bool,
) -> (h2: Seq<Event>)
    requires
        done_by(s, h, x, lock, r, lease, now),
        s.clock + LEASE <= u64::MAX,
    ensures
        done_by(s.steps(k), h2, x, lock, r, lease, now),
        s.steps(k).clock == s.clock,
    decreases k,
{
    if k == 0 {
        h
    } else {
        let h1 = lemma_step_done(s, h, x, lock, r, lease, now);
        lemma_steps_done(s.step(), h1, (k - 1) as nat, x, lock, r, lease, now)
    }
}

/// Ticking does not bring the request back, and takes its vote when the lease is
/// over.
proof fn lemma_ticks_done(
    s: SimView,
    h: Seq<Event>,
    k: nat,
    x: NodeId,
    lock: Seq<char>,
    r: RequestId,
    lease: Instant,
    now: bool,
) -> (h2: Seq<Event>)
    requires
        done_by(s, h, x, lock, r, lease, now),
        k <= s.nodes.len(),
        s.clock + LEASE <= u64::MAX,
    ensures
        done_by(s.tick_all(k), h2, x, lock, r, lease, now || x < k && s.clock >= lease),
        s.tick_all(k).clock == s.clock,
        s.tick_all(k).nodes.len() == s.nodes.len(),
        s.tick_all(k).dead == s.dead,
    decreases k,
{
    if k == 0 {
        h
    } else {
        let h1 = lemma_ticks_done(s, h, (k - 1) as nat, x, lock, r, lease, now);
        let t = s.tick_all((k - 1) as nat);
        let id = (k - 1) as NodeId;
        if t.dead.contains(id) {
            h1
        } else {
            let m = t.nodes[id as int];
            let h2 = lemma_tick_led(t, h1, id);
            if id == x {
                lemma_tick_fades(m, t.clock, lock, r, lease);
                m.lemma_tick_wf(t.clock);
                assert(s.tick_all(k).nodes[x as int] == NodeView {
                    outbox: Seq::empty(),
                    ..m.tick(t.clock)
                });
            }
            h2
        }
    }
}

/// The passing of time does not bring the request back, and takes its vote when
/// the lease is over.
proof fn lemma_advance_done(
    s: SimView,
    h: Seq<Event>,
    target: Instant,
    x: NodeId,
    lock: Seq<char>,
    r: RequestId,
    lease: Instant,
    now: bool,
)
    requires
        done_by(s, h, x, lock, r, lease, now),
        target + LEASE <= u64::MAX,
        now || s.clock < target && lease <= target,
    ensures
        s.advance_to(s.clock, target).alive(x),
        forgotten(s.advance_to(s.clock, target).nodes[x as int].arbiter_of(lock), r),
    decreases target - s.clock,
{
    if s.clock < target {
        let clock: Instant = if s.clock + RENEW_INTERVAL < target {
            (s.clock + RENEW_INTERVAL) as u64
        } else {
            target
        };
        let n = s.nodes.len();
        let later = SimView { clock, ..s };
        lemma_clock_led(s, h, clock);
        let h1 = lemma_ticks_done(later, h, n, x, lock, r, lease, now);
        let t = later.tick_all(n);
        let gone = now || clock >= lease;
        let h2 = lemma_steps_done(t, h1, t.cluster().load(), x, lock, r, lease, gone);
        assert(s.elapse(clock) == t.settle());
        lemma_advance_done(s.elapse(clock), h2, target, x, lock, r, lease, gone);
    }
}

/// **Votes of crashed nodes are reclaimed**: once time has advanced past the lease
/// of a vote that a crashed node has, the arbiter has given the vote away, and no
/// longer knows of the crashed node's request.
pub proof fn law_votes_of_crashed_nodes_are_reclaimed(
    sim: Sim,
    x: NodeId,
    lock: Seq<char>,
    r: RequestId,
    target: Instant,
)
    requires
        sim.wf(),
        sim@.alive(x),
        sim@.nodes[x as int].arbiter_of(lock).voted_for == Some(r),
        sim@.dead.contains(r.node),
        sim@.clock < target,
        sim@.nodes[x as int].arbiter_of(lock).lease <= target,
        target + LEASE <= u64::MAX,
    ensures
        forgotten(
            sim@.advance_to(sim@.clock, target).nodes[x as int].arbiter_of(lock),
            r,
        ),
{
    sim.lemma_wf_led();
    let n = sim@.nodes[x as int];
    let a = n.arbiter_of(lock);
    assert(n.wf());
    assert(a.wf());
    lemma_advance_done(sim@, sim.history(), target, x, lock, r, a.lease, false);
}

} // verus!
