//! What simulations tell their callers.
//!
//! A simulation is a sequence of calls. What each of them answers follows from the
//! size, the seed and the calls so far; and what the reports of acquisitions say is what
//! the cluster guarantees: one holder at a time, with growing tokens, and everybody in
//! turn.
use vstd::prelude::*;

use crate::cluster::{lemma_count_positive, sent_to, Event};
use crate::exclusion::law_survivors_exclude_each_other;
use crate::fencing::law_fence_tokens_increase;
use crate::model::NodeView;
use crate::progress::lemma_waits_after;
use crate::quorum::QuorumPolicy;
use crate::service::runs;
use crate::sim::{
    lemma_all_spared, lemma_inactive_is_idle, lemma_led_sane, lemma_members, lemma_next_link,
    lemma_release_in_time, lemma_request_in_time, lemma_step_in_time, sim_members, Sim, SimView,
};
use crate::types::{Fence, Instant, MessageKind, NodeId, RequestId, LEASE};

verus! {

/// A call of a simulation.
pub enum Call {
    Request { node: NodeId, lock: Seq<char> },
    Release { node: NodeId, lock: Seq<char> },
    Crash { node: NodeId },
    Advance { dt: Instant },
    Step,
    Drain,
}

/// What a call answers.
pub enum Reply {
    Nothing,
    Delivered(bool),
    Acquired(Seq<(NodeId, Seq<char>, Fence)>),
}

impl SimView {
    /// The simulation after a call.
    #[verifier::opaque]
    pub open spec fn called(self, call: Call) -> SimView {
        match call {
            Call::Request { node, lock } => self.request(node, lock),
            Call::Release { node, lock } => self.release(node, lock),
            Call::Crash { node } => self.crash(node),
            Call::Advance { dt } => self.advance_to(self.clock, (self.clock + dt) as u64),
            Call::Step => self.step(),
            Call::Drain => self.reported(),
        }
    }

    /// What a call answers.
    pub open spec fn reply(self, call: Call) -> Reply {
        match call {
            Call::Step => Reply::Delivered(!self.idle()),
            Call::Drain => Reply::Acquired(self.reports(self.nodes.len())),
            _ => Reply::Nothing,
        }
    }
}

/// `sims` is a simulation before the first, and after each, of `calls`, which answer
/// `replies`.
pub open spec fn is_run(sims: Seq<Sim>, calls: Seq<Call>, replies: Seq<Reply>) -> bool {
    &&& sims.len() == calls.len() + 1
    &&& replies.len() == calls.len()
    &&& forall|i: int|
        0 <= i < calls.len() ==> {
            &&& sims[i + 1]@ == sims[i]@.called(#[trigger] calls[i])
            &&& replies[i] == sims[i]@.reply(calls[i])
        }
}

/// **Simulations are reproducible.** Two simulations of the same size, seed and policy
/// answer the same calls the same.
pub proof fn law_simulations_are_reproducible(
    n: nat,
    seed: u64,
    policy: QuorumPolicy,
    calls: Seq<Call>,
    a: Seq<Sim>,
    b: Seq<Sim>,
    told_a: Seq<Reply>,
    told_b: Seq<Reply>,
)
    requires
        is_run(a, calls, told_a),
        is_run(b, calls, told_b),
        a[0]@ == SimView::start(n, seed, policy),
        b[0]@ == SimView::start(n, seed, policy),
    ensures
        told_a == told_b,
        forall|k: int| 0 <= k <= calls.len() ==> (#[trigger] a[k])@ == b[k]@,
{
    assert forall|k: int| 0 <= k <= calls.len() implies (#[trigger] a[k])@ == b[k]@ by {
        lemma_same(calls, a, b, told_a, told_b, k);
    }
    assert forall|i: int| 0 <= i < calls.len() implies told_a[i] == told_b[i] by {
        assert(a[i]@ == b[i]@);
        assert(told_a[i] == a[i]@.reply(calls[i]));
    }
    assert(told_a =~= told_b);
}

proof fn lemma_same(
    calls: Seq<Call>,
    a: Seq<Sim>,
    b: Seq<Sim>,
    told_a: Seq<Reply>,
    told_b: Seq<Reply>,
    k: int,
)
    requires
        is_run(a, calls, told_a),
        is_run(b, calls, told_b),
        a[0]@ == b[0]@,
        0 <= k <= calls.len(),
    ensures
        a[k]@ == b[k]@,
    decreases k,
{
    if k > 0 {
        lemma_same(calls, a, b, told_a, told_b, k - 1);
        assert(a[k - 1 + 1]@ == a[k - 1]@.called(calls[k - 1]));
        assert(b[k - 1 + 1]@ == b[k - 1]@.called(calls[k - 1]));
    }
}

/// **A step delivers the oldest message of one link.** It does nothing exactly when
/// nothing is under way. Else one message leaves one link, the one that was sent first
/// there; the node it was for handles it, at the time it is; and nothing else changes but
/// for what that node sends.
pub proof fn law_step_delivers_the_oldest(sim: Sim)
    requires
        sim.wf(),
    ensures
        sim@.idle() ==> sim@.step() == sim@,
        !sim@.idle() ==> ({
            let s = sim@;
            let t = s.step();
            let (from, to) = s.next_link();
            let link = s.links[(from, to)];
            let n = s.nodes[to as int].handle(s.clock, from, link[0]);
            &&& s.alive(from)
            &&& s.alive(to)
            &&& link.len() > 0
            &&& t.clock == s.clock
            &&& t.dead == s.dead
            &&& t.nodes == s.nodes.update(to as int, NodeView { outbox: Seq::empty(), ..n })
            &&& forall|k: (NodeId, NodeId)|
                (#[trigger] t.links[k]) == (if k == (from, to) {
                    link.skip(1)
                } else {
                    s.links[k]
                }) + (if k.0 == to && s.alive(k.1) {
                    sent_to(n.outbox, k.1)
                } else {
                    Seq::empty()
                })
        }),
{
    let s = sim@;
    let h = sim.history();
    sim.lemma_wf_led();
    lemma_inactive_is_idle(s, h);
    if !s.idle() {
        lemma_next_link(s, h);
        let t = s.step();
        let key = s.next_link();
        let link = s.links[key];
        let n = s.nodes[key.1 as int].handle(s.clock, key.0, link[0]);
        assert(link.remove(0) =~= link.skip(1));
        assert forall|k: (NodeId, NodeId)| (#[trigger] t.links[k]) == (if k == key {
            link.skip(1)
        } else {
            s.links[k]
        }) + (if k.0 == key.1 && s.alive(k.1) {
            sent_to(n.outbox, k.1)
        } else {
            Seq::empty()
        }) by {
            assert(link.skip(1) + Seq::empty() =~= link.skip(1));
            assert(s.links[k] + Seq::empty() =~= s.links[k]);
        }
    }
}

// ---- reports ----------------------------------------------------------------------------------
impl SimView {
    /// Everything acquired has been reported.
    pub open spec fn drained(self) -> bool {
        forall|p: int| 0 <= p < self.nodes.len() ==> (#[trigger] self.nodes[p]).acquired.len() == 0
    }

    /// The simulation after the first `k` calls, with everything acquired reported after
    /// each of them.
    #[verifier::opaque]
    pub open spec fn at(self, calls: Seq<Call>, k: nat) -> SimView
        decreases k,
    {
        if k == 0 {
            self
        } else {
            self.at(calls, (k - 1) as nat).called(calls[k - 1]).reported()
        }
    }

    /// What is reported after call `k`.
    pub open spec fn told(self, calls: Seq<Call>, k: int) -> Seq<(NodeId, Seq<char>, Fence)> {
        let t = self.at(calls, k as nat).called(calls[k]);
        t.reports(t.nodes.len())
    }

    /// Requests, releases and deliveries; no clock of a node is at its end when it
    /// requests.
    #[verifier::opaque]
    pub open spec fn plays(self, calls: Seq<Call>) -> bool {
        forall|k: int|
            0 <= k < calls.len() ==> match #[trigger] calls[k] {
                Call::Request { node, .. } => self.at(calls, k as nat).alive(node) ==> self.at(
                    calls,
                    k as nat,
                ).nodes[node as int].lamport < u64::MAX,
                Call::Release { .. } => true,
                Call::Step => true,
                _ => false,
            }
    }
}

/// Reporting is none of the cluster's business.
proof fn lemma_reported(t: SimView, h: Seq<Event>)
    requires
        runs(t, h),
    ensures
        runs(t.reported(), h),
        t.reported().drained(),
{
    reveal(runs);
    let r = t.reported();
    assert forall|p: int| 0 <= p < r.nodes.len() implies (#[trigger] r.nodes[p]).outbox.len() == 0
        && r.nodes[p].settled() == t.nodes[p].settled() by {
        assert(t.nodes[p].outbox.len() == 0);
    }
    assert(r.cluster().nodes =~= t.cluster().nodes);
    assert(r.cluster() == t.cluster());
}

/// What a delivery does to the node that gets it: it keeps its requests and what it
/// holds; if it comes to hold the lock of the message, it has that to report, and else
/// nothing.
pub proof fn lemma_delivery(s: SimView, h: Seq<Event>)
    requires
        runs(s, h),
        s.active().len() > 0,
    ensures
        ({
            let t = s.step();
            let to = s.next_link().1;
            let l = s.links[s.next_link()][0].lock;
            let m = s.nodes[to as int];
            let n = t.nodes[to as int];
            &&& s.alive(to)
            &&& t.nodes.len() == s.nodes.len()
            &&& forall|p: int| 0 <= p < s.nodes.len() && p != to ==> #[trigger] t.nodes[p] == s.nodes[p]
            &&& n.lamport >= m.lamport
            &&& forall|x: Seq<char>| #[trigger] n.request_of(x) == m.request_of(x)
            &&& forall|x: Seq<char>|
                #[trigger] m.holds(x) ==> n.holds(x) && n.requester.map[x].best_fence
                    == m.requester.map[x].best_fence
            &&& forall|x: Seq<char>| x != l ==> #[trigger] n.holds(x) == m.holds(x)
            &&& n.acquired == if n.holds(l) && !m.holds(l) {
                m.acquired.push((l, n.requester.map[l].best_fence))
            } else {
                m.acquired
            }
        }),
{
    reveal(runs);
    let key = s.next_link();
    let (from, to) = key;
    let c = s.cluster();
    lemma_next_link(s, h);
    lemma_led_sane(s, h);
    lemma_members(s.nodes.len());
    lemma_waits_after(s.policy, sim_members(s.nodes.len()), h, s.live());
    let m = s.nodes[to as int];
    let msg = s.links[key][0];
    assert(c.link(from, to) == s.links[key]);
    assert(c.waits_well(msg.lock, from, to, s.live().contains(from)));
    assert(c.requester(to, msg.lock) == m.requester.get(msg.lock));
    if msg.kind is Revoked && m.request_of(msg.lock) == Some(msg.req) {
        lemma_count_positive(s.links[key], 0, MessageKind::Revoked, msg.lock, msg.req);
    }
    let n = m.handle(s.clock, from, msg);
    assert(s.step().nodes[to as int] == NodeView { outbox: Seq::empty(), ..n });
}

/// One call more.
pub proof fn lemma_call(s: SimView, h: Seq<Event>, call: Call) -> (h2: Seq<Event>)
    requires
        runs(s, h),
        call is Request || call is Release || call is Step,
        call matches Call::Request { node, .. } ==> (s.alive(node)
            ==> s.nodes[node as int].lamport < u64::MAX),
    ensures
        runs(s.called(call), h2),
        runs(s.called(call).reported(), h2),
        s.called(call).reported().drained(),
        s.called(call).nodes.len() == s.nodes.len(),
        s.called(call).policy == s.policy,
        s.called(call).clock == s.clock,
        h.len() <= h2.len(),
        h2.take(h.len() as int) == h,
{
    reveal(SimView::called);
    let h2 = lemma_call_led(s, h, call);
    lemma_reported(s.called(call), h2);
    h2
}

/// [`lemma_call`] before anything is reported.
proof fn lemma_call_led(s: SimView, h: Seq<Event>, call: Call) -> (h2: Seq<Event>)
    requires
        runs(s, h),
        call is Request || call is Release || call is Step,
        call matches Call::Request { node, .. } ==> (s.alive(node)
            ==> s.nodes[node as int].lamport < u64::MAX),
    ensures
        runs(s.called(call), h2),
        s.called(call).nodes.len() == s.nodes.len(),
        s.called(call).policy == s.policy,
        s.called(call).clock == s.clock,
        h.len() <= h2.len(),
        h2.take(h.len() as int) == h,
{
    reveal(SimView::called);
    reveal(runs);
    let h2 = match call {
        Call::Request { node, lock } => if s.alive(node) {
            lemma_request_in_time(s, h, node, lock)
        } else {
            h
        },
        Call::Release { node, lock } => if s.alive(node) {
            lemma_release_in_time(s, h, node, lock)
        } else {
            h
        },
        _ => if s.active().len() > 0 {
            lemma_next_link(s, h);
            lemma_step_in_time(s, h, s.clock)
        } else {
            h
        },
    };
    assert(h2 == h || h2.drop_last() =~= h);
    assert(h2.take(h.len() as int) =~= h);
    h2
}

/// Before the first call.
pub proof fn lemma_at_start(s: SimView, calls: Seq<Call>)
    ensures
        s.at(calls, 0) == s,
{
    reveal(SimView::at);
}

/// The events of a run, from the first `i` calls to the first `k`.
pub proof fn lemma_run(s: SimView, calls: Seq<Call>, i: nat, h: Seq<Event>, k: nat) -> (h2: Seq<Event>)
    requires
        i <= k <= calls.len(),
        s.plays(calls),
        runs(s.at(calls, i), h),
    ensures
        runs(s.at(calls, k), h2),
        s.at(calls, k).nodes.len() == s.at(calls, i).nodes.len(),
        s.at(calls, k).policy == s.at(calls, i).policy,
        k > i ==> s.at(calls, k).drained(),
        h.len() <= h2.len(),
        h2.take(h.len() as int) == h,
    decreases k - i,
{
    reveal(SimView::at);
    reveal(SimView::plays);
    if k == i {
        assert(h.take(h.len() as int) =~= h);
        h
    } else {
        let h1 = lemma_run(s, calls, i, h, (k - 1) as nat);
        let h2 = lemma_call(s.at(calls, (k - 1) as nat), h1, calls[k - 1]);
        assert(h2.take(h.len() as int) =~= h2.take(h1.len() as int).take(h.len() as int));
        h2
    }
}

/// What is reported is some node's to report.
proof fn lemma_reporter(t: SimView, k: nat, i: int)
    requires
        k <= t.nodes.len() <= u32::MAX,
        0 <= i < t.reports(k).len(),
    ensures
        ({
            let r = t.reports(k)[i];
            &&& r.0 < k
            &&& t.nodes[r.0 as int].acquired.contains((r.1, r.2))
        }),
    decreases k,
{
    let before = t.reports((k - 1) as nat);
    let mine = t.nodes[k - 1].acquired;
    if i < before.len() {
        lemma_reporter(t, (k - 1) as nat, i);
    } else {
        assert(t.reports(k)[i] == ((k - 1) as NodeId, mine[i - before.len()].0, mine[i - before.len()].1));
        assert(mine.contains(mine[i - before.len()]));
    }
}

/// Whoever reports a lock has just come to hold it, with the token it reports.
proof fn lemma_told(s: SimView, h: Seq<Event>, call: Call, a: NodeId, lock: Seq<char>, f: Fence)
    requires
        runs(s, h),
        s.drained(),
        call is Request || call is Release || call is Step,
        call matches Call::Request { node, .. } ==> (s.alive(node)
            ==> s.nodes[node as int].lamport < u64::MAX),
        s.called(call).reports(s.called(call).nodes.len()).contains((a, lock, f)),
    ensures
        call is Step,
        a < s.nodes.len(),
        !s.nodes[a as int].holds(lock),
        s.called(call).nodes[a as int].holds(lock),
        s.called(call).nodes[a as int].requester.map[lock].best_fence == f,
{
    let t = s.called(call);
    let h2 = lemma_call(s, h, call);
    let reports = t.reports(t.nodes.len());
    let i = reports.index_of((a, lock, f));
    assert(t.nodes.len() <= u32::MAX) by {
        reveal(runs);
    }
    lemma_reporter(t, t.nodes.len(), i);
    let got = t.nodes[a as int].acquired;
    assert(s.nodes[a as int].acquired.len() == 0);
    let j = got.index_of((lock, f));
    assert(got[j] == (lock, f));
    lemma_new(s, h, call, a, j);
}

/// What a node has to report after a call that it had not before.
proof fn lemma_new(s: SimView, h: Seq<Event>, call: Call, a: NodeId, j: int)
    requires
        runs(s, h),
        call is Request || call is Release || call is Step,
        a < s.nodes.len(),
        s.nodes[a as int].acquired.len() == 0,
        0 <= j < s.called(call).nodes[a as int].acquired.len(),
    ensures
        ({
            let n = s.called(call).nodes[a as int];
            let (lock, f) = n.acquired[j];
            &&& call is Step
            &&& !s.nodes[a as int].holds(lock)
            &&& n.holds(lock)
            &&& n.requester.map[lock].best_fence == f
        }),
{
    reveal(SimView::called);
    if call is Step && s.active().len() > 0 {
        lemma_delivery(s, h);
        if s.next_link().1 != a {
            assert(s.step().nodes[a as int] == s.nodes[a as int]);
        }
    }
}

/// Two nodes that hold a lock are one.
pub proof fn lemma_exclusive(s: SimView, h: Seq<Event>, lock: Seq<char>, a: NodeId, b: NodeId)
    requires
        runs(s, h),
        a < s.nodes.len(),
        b < s.nodes.len(),
        s.nodes[a as int].holds(lock),
        s.nodes[b as int].holds(lock),
    ensures
        a == b,
{
    reveal(runs);
    lemma_members(s.nodes.len());
    assert(s.cluster().nodes[a] == s.nodes[a as int].settled());
    assert(s.cluster().nodes[b] == s.nodes[b as int].settled());
    law_survivors_exclude_each_other(
        s.policy,
        sim_members(s.nodes.len()),
        h,
        s.live(),
        lock,
        a,
        b,
    );
}

/// A node's request is its own and not ahead of its clock.
proof fn lemma_own(s: SimView, h: Seq<Event>, a: NodeId, lock: Seq<char>)
    requires
        runs(s, h),
        a < s.nodes.len(),
    ensures
        s.nodes[a as int].request_of(lock) matches Some(r) ==> r.node == a && r.ts
            <= s.nodes[a as int].lamport,
{
    reveal(runs);
    lemma_led_sane(s, h);
    let n = s.nodes[a as int];
    assert(s.cluster().members.contains(a));
    assert(s.cluster().sane_node(a));
    assert(s.cluster().nodes[a] == n.settled());
    if n.requester.map.contains_key(lock) {
        assert(n.settled().requester_wf(n.requester.map[lock]));
    }
}

/// Later holders have greater tokens.
proof fn lemma_greater(
    u: SimView,
    h: Seq<Event>,
    v: SimView,
    h2: Seq<Event>,
    lock: Seq<char>,
    a: NodeId,
    b: NodeId,
)
    requires
        runs(u, h),
        runs(v, h2),
        v.nodes.len() == u.nodes.len(),
        v.policy == u.policy,
        h.len() <= h2.len(),
        h2.take(h.len() as int) == h,
        a < u.nodes.len(),
        u.nodes[a as int].holds(lock),
        u.nodes[a as int].requester.map[lock].best_fence < u64::MAX,
        b < v.nodes.len(),
        v.nodes[b as int].holds(lock),
        v.nodes[b as int].requester.map[lock].req != u.nodes[a as int].requester.map[lock].req,
    ensures
        v.nodes[b as int].requester.map[lock].best_fence
            > u.nodes[a as int].requester.map[lock].best_fence,
{
    reveal(runs);
    let members = sim_members(v.nodes.len());
    lemma_members(v.nodes.len());
    assert(u.cluster().nodes[a] == u.nodes[a as int].settled());
    assert(v.cluster().nodes[b] == v.nodes[b as int].settled());
    assert(v.live() =~= Set::full());
    lemma_all_spared(v.policy, members, h2);
    law_fence_tokens_increase(v.policy, members, h2, h.len() as int, lock, a, b);
}

/// Whoever holds a lock holds it, under the same request, until it releases it.
proof fn lemma_hold(s: SimView, h: Seq<Event>, call: Call, a: NodeId, lock: Seq<char>, r: RequestId)
    requires
        runs(s, h),
        call is Request || call is Release || call is Step,
        a < s.nodes.len(),
        s.nodes[a as int].holds(lock),
        s.nodes[a as int].request_of(lock) == Some(r),
        !(call matches Call::Release { node, lock: l } && node == a && l == lock),
    ensures
        s.called(call).nodes[a as int].holds(lock),
        s.called(call).nodes[a as int].request_of(lock) == Some(r),
{
    reveal(SimView::called);
    match call {
        Call::Step => {
            if s.active().len() > 0 {
                lemma_delivery(s, h);
                let to = s.next_link().1;
                if to != a {
                    assert(s.step().nodes[a as int] == s.nodes[a as int]);
                }
            }
        },
        _ => {},
    }
}

/// A request id that is behind a node's clock is never the node's next.
proof fn lemma_past(s: SimView, h: Seq<Event>, call: Call, a: NodeId, lock: Seq<char>, r: RequestId)
    requires
        runs(s, h),
        call is Request || call is Release || call is Step,
        call matches Call::Request { node, .. } ==> (s.alive(node)
            ==> s.nodes[node as int].lamport < u64::MAX),
        a < s.nodes.len(),
        r.ts <= s.nodes[a as int].lamport,
        s.nodes[a as int].request_of(lock) != Some(r),
    ensures
        r.ts <= s.called(call).nodes[a as int].lamport,
        s.called(call).nodes[a as int].request_of(lock) != Some(r),
{
    reveal(SimView::called);
    match call {
        Call::Step => {
            if s.active().len() > 0 {
                lemma_delivery(s, h);
                let to = s.next_link().1;
                if to != a {
                    assert(s.step().nodes[a as int] == s.nodes[a as int]);
                }
            }
        },
        _ => {},
    }
}

/// [`lemma_past`] over many calls.
proof fn lemma_past_run(
    s: SimView,
    calls: Seq<Call>,
    i: nat,
    h: Seq<Event>,
    k: nat,
    a: NodeId,
    lock: Seq<char>,
    r: RequestId,
)
    requires
        i <= k <= calls.len(),
        s.plays(calls),
        runs(s.at(calls, i), h),
        a < s.at(calls, i).nodes.len(),
        r.ts <= s.at(calls, i).nodes[a as int].lamport,
        s.at(calls, i).nodes[a as int].request_of(lock) != Some(r),
    ensures
        r.ts <= s.at(calls, k).nodes[a as int].lamport,
        s.at(calls, k).nodes[a as int].request_of(lock) != Some(r),
    decreases k - i,
{
    reveal(SimView::at);
    reveal(SimView::plays);
    if i < k {
        let u = s.at(calls, (k - 1) as nat);
        lemma_past_run(s, calls, i, h, (k - 1) as nat, a, lock, r);
        let h1 = lemma_run(s, calls, i, h, (k - 1) as nat);
        lemma_past(u, h1, calls[k - 1], a, lock, r);
        let h2 = lemma_call(u, h1, calls[k - 1]);
    }
}

/// [`lemma_hold`] of call `i` of a run.
pub proof fn lemma_hold_at(
    s: SimView,
    calls: Seq<Call>,
    i: nat,
    h: Seq<Event>,
    lock: Seq<char>,
    a: NodeId,
    r: RequestId,
) -> (h2: Seq<Event>)
    requires
        i < calls.len(),
        s.plays(calls),
        runs(s.at(calls, i), h),
        a < s.at(calls, i).nodes.len(),
        s.at(calls, i).nodes[a as int].holds(lock),
        s.at(calls, i).nodes[a as int].request_of(lock) == Some(r),
        calls[i as int] != (Call::Release { node: a, lock }),
    ensures
        runs(s.at(calls, i + 1), h2),
        s.at(calls, i + 1).nodes.len() == s.at(calls, i).nodes.len(),
        s.at(calls, i + 1).nodes[a as int].holds(lock),
        s.at(calls, i + 1).nodes[a as int].request_of(lock) == Some(r),
{
    reveal(SimView::at);
    reveal(SimView::plays);
    let u = s.at(calls, i);
    let call = calls[i as int];
    lemma_hold(u, h, call, a, lock, r);
    let h2 = lemma_call(u, h, call);
    let t = u.called(call);
    assert(s.at(calls, i + 1) == t.reported());
    assert(t.reported().nodes[a as int].requester == t.nodes[a as int].requester);
    h2
}

/// Between two times at which a lock comes to be held, the first holder releases it.
pub proof fn lemma_released_between(
    s: SimView,
    calls: Seq<Call>,
    i: nat,
    h: Seq<Event>,
    j: nat,
    lock: Seq<char>,
    a: NodeId,
    b: NodeId,
    r: RequestId,
) -> (m: nat)
    requires
        i <= j < calls.len(),
        s.plays(calls),
        runs(s.at(calls, i), h),
        a < s.at(calls, i).nodes.len(),
        s.at(calls, i).nodes[a as int].holds(lock),
        s.at(calls, i).nodes[a as int].request_of(lock) == Some(r),
        b < s.at(calls, i).nodes.len(),
        calls[j as int] is Step,
        !s.at(calls, j).nodes[b as int].holds(lock),
        s.at(calls, j + 1).nodes[b as int].holds(lock),
    ensures
        i <= m < j,
        calls[m as int] == (Call::Release { node: a, lock }),
        s.at(calls, m).nodes[a as int].request_of(lock) == Some(r),
    decreases j - i,
{
    if calls[i as int] == (Call::Release { node: a, lock }) {
        i
    } else {
        let h1 = lemma_hold_at(s, calls, i, h, lock, a, r);
        if i == j {
            lemma_exclusive(s.at(calls, i + 1), h1, lock, a, b);
            i
        } else {
            lemma_released_between(s, calls, i + 1, h1, j, lock, a, b, r)
        }
    }
}

/// What a report after call `k` says of the simulation before and after.
pub proof fn lemma_told_at(
    s: SimView,
    calls: Seq<Call>,
    k: nat,
    h: Seq<Event>,
    a: NodeId,
    lock: Seq<char>,
    f: Fence,
) -> (h2: Seq<Event>)
    requires
        k < calls.len(),
        s.plays(calls),
        runs(s.at(calls, k), h),
        s.at(calls, k).drained(),
        s.told(calls, k as int).contains((a, lock, f)),
    ensures
        calls[k as int] is Step,
        a < s.at(calls, k).nodes.len(),
        !s.at(calls, k).nodes[a as int].holds(lock),
        s.at(calls, k + 1).nodes[a as int].holds(lock),
        s.at(calls, k + 1).nodes[a as int].requester.map[lock].best_fence == f,
        runs(s.at(calls, k + 1), h2),
        s.at(calls, k + 1).nodes.len() == s.at(calls, k).nodes.len(),
        s.at(calls, k + 1).policy == s.at(calls, k).policy,
        h.len() <= h2.len(),
        h2.take(h.len() as int) == h,
{
    reveal(SimView::at);
    reveal(SimView::plays);
    let u = s.at(calls, k);
    let call = calls[k as int];
    lemma_told(u, h, call, a, lock, f);
    let h2 = lemma_call(u, h, call);
    let t = u.called(call);
    assert(s.at(calls, k + 1) == t.reported());
    assert(t.reported().nodes[a as int].requester == t.nodes[a as int].requester);
    h2
}

/// [`law_reports_exclude_each_other`] of what a simulation shows.
#[verifier::spinoff_prover]
#[verifier::rlimit(50)]
proof fn lemma_excluded(
    s: SimView,
    start: Seq<Event>,
    calls: Seq<Call>,
    i: nat,
    j: nat,
    lock: Seq<char>,
    a: NodeId,
    b: NodeId,
    f: Fence,
    g: Fence,
) -> (m: nat)
    requires
        runs(s, start),
        s.drained(),
        s.plays(calls),
        i < j < calls.len(),
        s.told(calls, i as int).contains((a, lock, f)),
        s.told(calls, j as int).contains((b, lock, g)),
        f < u64::MAX,
    ensures
        i < m < j,
        calls[m as int] == (Call::Release { node: a, lock }),
        g > f,
{
    lemma_at_start(s, calls);
    let i1 = i + 1;
    let h0 = lemma_run(s, calls, 0, start, i);
    let h = lemma_told_at(s, calls, i, h0, a, lock, f);
    let u = s.at(calls, i1);
    let r = u.nodes[a as int].requester.map[lock].req;
    let h1 = lemma_run(s, calls, i1, h, j);
    assert(s.at(calls, j).drained()) by {
        let _ = lemma_run(s, calls, 0, start, j);
    }
    let h2 = lemma_told_at(s, calls, j, h1, b, lock, g);
    let v = s.at(calls, j + 1);
    assert(h2.take(h.len() as int) =~= h2.take(h1.len() as int).take(h.len() as int));
    let m = lemma_released_between(s, calls, i1, h, j, lock, a, b, r);
    let hm = lemma_run(s, calls, i1, h, m);
    lemma_gone(s, calls, m, hm, j + 1, lock, a, r);
    lemma_own(v, h2, b, lock);
    lemma_own(u, h, a, lock);
    lemma_greater(u, h, v, h2, lock, a, b);
    m
}

/// **Reports exclude each other.** In a simulation without crashes, with everything acquired
/// reported after each request, release and delivery: if a lock is reported twice, then
/// the first holder has released it in between, and the second token is greater, up to
/// the largest token there is.
pub proof fn law_reports_exclude_each_other(
    sim: Sim,
    calls: Seq<Call>,
    i: int,
    j: int,
    lock: Seq<char>,
    a: NodeId,
    b: NodeId,
    f: Fence,
    g: Fence,
) -> (m: int)
    requires
        sim.wf(),
        sim@.dead.is_empty(),
        sim@.clock + LEASE <= u64::MAX,
        sim@.drained(),
        sim@.plays(calls),
        0 <= i < j < calls.len(),
        sim@.told(calls, i).contains((a, lock, f)),
        sim@.told(calls, j).contains((b, lock, g)),
        f < u64::MAX,
    ensures
        i < m < j,
        calls[m] == (Call::Release { node: a, lock }),
        g > f,
{
    let s = sim@;
    assert(runs(s, sim.history())) by {
        reveal(runs);
        sim.lemma_wf_led();
    }
    let m = lemma_excluded(s, sim.history(), calls, i as nat, j as nat, lock, a, b, f, g);
    m as int
}

/// A request that was released is never made again.
proof fn lemma_gone(
    s: SimView,
    calls: Seq<Call>,
    m: nat,
    h: Seq<Event>,
    k: nat,
    lock: Seq<char>,
    a: NodeId,
    r: RequestId,
)
    requires
        m < k <= calls.len(),
        s.plays(calls),
        runs(s.at(calls, m), h),
        a < s.at(calls, m).nodes.len(),
        calls[m as int] == (Call::Release { node: a, lock }),
        s.at(calls, m).nodes[a as int].request_of(lock) == Some(r),
    ensures
        s.at(calls, k).nodes[a as int].request_of(lock) != Some(r),
{
    reveal(SimView::at);
    reveal(SimView::plays);
    let w = s.at(calls, m);
    let call = Call::Release { node: a, lock };
    lemma_own(w, h, a, lock);
    lemma_released(w, h, a, lock);
    let h1 = lemma_call(w, h, call);
    assert(s.at(calls, m + 1) == w.called(call).reported());
    lemma_past_run(s, calls, m + 1, h1, k, a, lock, r);
}

/// Whoever has released a lock does not want it.
proof fn lemma_released(s: SimView, h: Seq<Event>, a: NodeId, lock: Seq<char>)
    requires
        runs(s, h),
        a < s.nodes.len(),
    ensures
        ({
            let n = s.called(Call::Release { node: a, lock }).reported().nodes[a as int];
            &&& n.request_of(lock) is None
            &&& n.lamport == s.nodes[a as int].lamport
        }),
{
    reveal(SimView::called);
    reveal(runs);
}

} // verus!
