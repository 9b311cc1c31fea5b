//! Everybody is reported in turn.
use vstd::prelude::*;

use crate::cluster::Event;
use crate::quorum::QuorumPolicy;
use crate::reports::{
    lemma_at_start, lemma_delivery, lemma_released_between, lemma_run, lemma_told_at, Call,
};
use crate::service::{lemma_held, runs};
use crate::sim::{Sim, SimView};
use crate::types::{Fence, NodeId};

verus! {

impl SimView {
    /// `node` is reported to have acquired `lock` after call `k`.
    pub open spec fn tells(self, calls: Seq<Call>, k: int, node: NodeId, lock: Seq<char>) -> bool {
        exists|f: Fence| #[trigger] self.told(calls, k).contains((node, lock, f))
    }
}

/// What each node has to report is reported.
proof fn lemma_reports_all(t: SimView, k: nat, a: NodeId, x: (Seq<char>, Fence))
    requires
        a < k <= t.nodes.len(),
        k <= u32::MAX,
        t.nodes[a as int].acquired.contains(x),
    ensures
        t.reports(k).contains((a, x.0, x.1)),
    decreases k,
{
    let before = t.reports((k - 1) as nat);
    let mine = t.nodes[k - 1].acquired;
    if a == k - 1 {
        let j = mine.index_of(x);
        assert(t.reports(k)[before.len() + j] == (a, x.0, x.1));
    } else {
        lemma_reports_all(t, (k - 1) as nat, a, x);
        let j = before.index_of((a, x.0, x.1));
        assert(t.reports(k)[j] == (a, x.0, x.1));
    }
}

/// What a call does to a node's request for a lock.
proof fn lemma_frame(s: SimView, h: Seq<Event>, call: Call, a: NodeId, lock: Seq<char>)
    requires
        runs(s, h),
        call is Request || call is Release || call is Step,
        a < s.nodes.len(),
    ensures
        ({
            let t = s.called(call);
            let m = s.nodes[a as int];
            let n = t.nodes[a as int];
            &&& t.nodes.len() == s.nodes.len()
            &&& call == (Call::Request { node: a, lock }) ==> n.request_of(lock) is Some
            &&& call == (Call::Release { node: a, lock }) ==> n.request_of(lock) is None
            &&& call != (Call::Request { node: a, lock }) && call != (Call::Release { node: a, lock })
                ==> n.request_of(lock) == m.request_of(lock)
            &&& n.holds(lock) && !m.holds(lock) ==> n.acquired.contains(
                (lock, n.requester.map[lock].best_fence),
            )
        }),
{
    reveal(SimView::called);
    assert(s.alive(a)) by {
        reveal(runs);
    }
    match call {
        Call::Step => {
            if s.active().len() > 0 {
                lemma_delivery(s, h);
                let t = s.step();
                let to = s.next_link().1;
                let l = s.links[s.next_link()][0].lock;
                let m = s.nodes[a as int];
                let n = t.nodes[a as int];
                if to != a {
                    assert(t.nodes[a as int] == s.nodes[a as int]);
                } else if n.holds(lock) && !m.holds(lock) {
                    assert(l == lock);
                    assert(n.acquired.last() == (lock, n.requester.map[lock].best_fence));
                }
            }
        },
        _ => {},
    }
}

/// [`lemma_frame`] of call `k` of a run.
proof fn lemma_frame_at(
    s: SimView,
    calls: Seq<Call>,
    k: nat,
    h: Seq<Event>,
    a: NodeId,
    lock: Seq<char>,
)
    requires
        k < calls.len(),
        s.plays(calls),
        runs(s.at(calls, k), h),
        a < s.at(calls, k).nodes.len(),
    ensures
        ({
            let m = s.at(calls, k).nodes[a as int];
            let n = s.at(calls, k + 1).nodes[a as int];
            let call = calls[k as int];
            &&& call == (Call::Request { node: a, lock }) ==> n.request_of(lock) is Some
            &&& call == (Call::Release { node: a, lock }) ==> n.request_of(lock) is None
            &&& call != (Call::Request { node: a, lock }) && call != (Call::Release { node: a, lock })
                ==> n.request_of(lock) == m.request_of(lock)
            &&& n.holds(lock) && !m.holds(lock) ==> s.tells(calls, k as int, a, lock)
        }),
{
    reveal(SimView::at);
    reveal(SimView::plays);
    let u = s.at(calls, k);
    let call = calls[k as int];
    let t = u.called(call);
    lemma_frame(u, h, call, a, lock);
    assert(s.at(calls, k + 1) == t.reported());
    let n = t.reported().nodes[a as int];
    assert(n.requester == t.nodes[a as int].requester);
    if n.holds(lock) && !u.nodes[a as int].holds(lock) {
        let f = n.requester.map[lock].best_fence;
        assert(t.nodes.len() <= u32::MAX) by {
            reveal(runs);
        }
        lemma_reports_all(t, t.nodes.len(), a, (lock, f));
        assert(s.told(calls, k as int).contains((a, lock, f)));
    }
}

/// Without a request nobody comes to want a lock.
proof fn lemma_unwanted(
    s: SimView,
    calls: Seq<Call>,
    i: nat,
    h: Seq<Event>,
    k: nat,
    a: NodeId,
    lock: Seq<char>,
)
    requires
        i <= k <= calls.len(),
        s.plays(calls),
        runs(s.at(calls, i), h),
        a < s.at(calls, i).nodes.len(),
        s.at(calls, i).nodes[a as int].request_of(lock) is None,
        forall|x: int| i <= x < k ==> #[trigger] calls[x] != (Call::Request { node: a, lock }),
    ensures
        s.at(calls, k).nodes[a as int].request_of(lock) is None,
    decreases k - i,
{
    if i < k {
        let j = (k - 1) as nat;
        lemma_unwanted(s, calls, i, h, j, a, lock);
        let h1 = lemma_run(s, calls, i, h, j);
        assert(calls[j as int] != (Call::Request { node: a, lock }));
        lemma_frame_at(s, calls, j, h1, a, lock);
    }
}

/// Without a release nobody ceases to want a lock.
proof fn lemma_wanted(
    s: SimView,
    calls: Seq<Call>,
    i: nat,
    h: Seq<Event>,
    k: nat,
    a: NodeId,
    lock: Seq<char>,
)
    requires
        i <= k <= calls.len(),
        s.plays(calls),
        runs(s.at(calls, i), h),
        a < s.at(calls, i).nodes.len(),
        s.at(calls, i).nodes[a as int].request_of(lock) is Some,
        forall|x: int| i <= x < k ==> #[trigger] calls[x] != (Call::Release { node: a, lock }),
    ensures
        s.at(calls, k).nodes[a as int].request_of(lock) is Some,
    decreases k - i,
{
    if i < k {
        let j = (k - 1) as nat;
        lemma_wanted(s, calls, i, h, j, a, lock);
        let h1 = lemma_run(s, calls, i, h, j);
        assert(calls[j as int] != (Call::Release { node: a, lock }));
        lemma_frame_at(s, calls, j, h1, a, lock);
    }
}

/// Whoever holds a lock was reported to have acquired it.
proof fn lemma_was_told(
    s: SimView,
    calls: Seq<Call>,
    h: Seq<Event>,
    k: nat,
    a: NodeId,
    lock: Seq<char>,
) -> (i: nat)
    requires
        k <= calls.len(),
        s.plays(calls),
        runs(s, h),
        a < s.nodes.len(),
        !s.nodes[a as int].holds(lock),
        s.at(calls, k).nodes[a as int].holds(lock),
    ensures
        i < k,
        s.tells(calls, i as int, a, lock),
    decreases k,
{
    lemma_at_start(s, calls);
    if k == 0 {
        0
    } else {
        let j = (k - 1) as nat;
        let h1 = lemma_run(s, calls, 0, h, j);
        if s.at(calls, j).nodes[a as int].holds(lock) {
            lemma_was_told(s, calls, h, j, a, lock)
        } else {
            lemma_frame_at(s, calls, j, h1, a, lock);
            j
        }
    }
}

/// Whoever is reported holds the lock then, and has requested it before.
proof fn lemma_teller(
    s: SimView,
    calls: Seq<Call>,
    h: Seq<Event>,
    i: nat,
    a: NodeId,
    lock: Seq<char>,
) -> (r: nat)
    requires
        i < calls.len(),
        s.plays(calls),
        runs(s, h),
        s.drained(),
        s.nobody_wants(),
        s.tells(calls, i as int, a, lock),
    ensures
        r < i,
        calls[r as int] == (Call::Request { node: a, lock }),
        calls[i as int] is Step,
        a < s.nodes.len(),
        !s.at(calls, i).nodes[a as int].holds(lock),
        s.at(calls, i + 1).nodes[a as int].holds(lock),
{
    lemma_at_start(s, calls);
    let f = choose|f: Fence| #[trigger] s.told(calls, i as int).contains((a, lock, f));
    let h1 = lemma_run(s, calls, 0, h, i);
    let h2 = lemma_told_at(s, calls, i, h1, a, lock, f);
    if forall|x: int| 0 <= x < i + 1 ==> #[trigger] calls[x] != (Call::Request { node: a, lock }) {
        assert(s.nodes[a as int].request_of(lock) is None);
        lemma_unwanted(s, calls, 0, h, i + 1, a, lock);
    }
    let r = choose|x: int|
        0 <= x < i + 1 && #[trigger] calls[x] == (Call::Request { node: a, lock });
    r as nat
}

impl SimView {
    /// No node wants any lock.
    pub open spec fn nobody_wants(self) -> bool {
        forall|p: int, l: Seq<char>|
            0 <= p < self.nodes.len() ==> (#[trigger] self.nodes[p].request_of(l)) is None
    }
}

/// No node requests a lock twice.
pub open spec fn requested_once(calls: Seq<Call>) -> bool {
    forall|x: int, y: int|
        0 <= x < y < calls.len() && (#[trigger] calls[x]) is Request ==> #[trigger] calls[y]
            != calls[x]
}

/// After it was reported, and released, a lock is not held again by the same node.
proof fn lemma_gone_for_good(
    s: SimView,
    calls: Seq<Call>,
    h: Seq<Event>,
    r: nat,
    m: nat,
    k: nat,
    a: NodeId,
    lock: Seq<char>,
)
    requires
        r < m < k <= calls.len(),
        s.plays(calls),
        runs(s, h),
        requested_once(calls),
        a < s.nodes.len(),
        calls[r as int] == (Call::Request { node: a, lock }),
        calls[m as int] == (Call::Release { node: a, lock }),
    ensures
        !s.at(calls, k).nodes[a as int].holds(lock),
{
    lemma_at_start(s, calls);
    let h1 = lemma_run(s, calls, 0, h, m);
    lemma_frame_at(s, calls, m, h1, a, lock);
    let h2 = lemma_run(s, calls, 0, h, m + 1);
    assert forall|x: int| m + 1 <= x < k implies #[trigger] calls[x] != (Call::Request {
        node: a,
        lock,
    }) by {
        assert(calls[x] != calls[r as int]);
    }
    lemma_unwanted(s, calls, m + 1, h2, k, a, lock);
}

/// A lock that was requested is reported.
proof fn lemma_reported_some_time(
    s: SimView,
    calls: Seq<Call>,
    h: Seq<Event>,
    r: nat,
    a: NodeId,
    lock: Seq<char>,
)
    requires
        r < calls.len(),
        s.plays(calls),
        runs(s, h),
        s.drained(),
        s.nobody_wants(),
        requested_once(calls),
        releases_what_is_told(s, calls),
        s.at(calls, calls.len()).idle(),
        a < s.nodes.len(),
        calls[r as int] == (Call::Request { node: a, lock }),
    ensures
        exists|i: int| 0 <= i < calls.len() && #[trigger] s.tells(calls, i, a, lock),
{
    lemma_at_start(s, calls);
    if forall|i: int| 0 <= i < calls.len() ==> !#[trigger] s.tells(calls, i, a, lock) {
        let n = calls.len();
        let h1 = lemma_run(s, calls, 0, h, r);
        lemma_frame_at(s, calls, r, h1, a, lock);
        let h2 = lemma_run(s, calls, 0, h, r + 1);
        assert forall|x: int| r + 1 <= x < n implies #[trigger] calls[x] != (Call::Release {
            node: a,
            lock,
        }) by {
            if calls[x] == (Call::Release { node: a, lock }) {
                assert(told_before(s, calls, x, a, lock));
                let i = choose|i: int| 0 <= i < x && #[trigger] s.tells(calls, i, a, lock);
                assert(s.tells(calls, i, a, lock));
            }
        }
        lemma_wanted(s, calls, r + 1, h2, n, a, lock);
        let h3 = lemma_run(s, calls, 0, h, n);
        let t = s.at(calls, n);
        assert(t.wanting(lock).contains(a));
        lemma_held(t, h3, lock, a);
        let q = t.holder(lock);
        assert(s.nodes[q as int].request_of(lock) is None);
        let i = lemma_was_told(s, calls, h, n, q, lock);
        let w = lemma_teller(s, calls, h, i, q, lock);
        assert(released_after(calls, i as int, q, lock));
        let m = choose|m: int|
            i < m < n && #[trigger] calls[m] == (Call::Release { node: q, lock });
        lemma_gone_for_good(s, calls, h, w, m as nat, n, q, lock);
    }
}

/// Whatever is reported is released after that, and nothing else is released.
pub open spec fn releases_what_is_told(s: SimView, calls: Seq<Call>) -> bool {
    &&& forall|m: int, a: NodeId, l: Seq<char>|
        0 <= m < calls.len() && #[trigger] calls[m] == (Call::Release { node: a, lock: l })
            ==> #[trigger] told_before(s, calls, m, a, l)
    &&& forall|i: int, a: NodeId, l: Seq<char>|
        0 <= i < calls.len() && #[trigger] s.tells(calls, i, a, l) ==> released_after(calls, i, a, l)
}

/// `node` was reported to have acquired `lock` before call `m`.
pub open spec fn told_before(
    s: SimView,
    calls: Seq<Call>,
    m: int,
    node: NodeId,
    lock: Seq<char>,
) -> bool {
    exists|i: int| 0 <= i < m && #[trigger] s.tells(calls, i, node, lock)
}

/// `node` releases `lock` after call `i`.
pub open spec fn released_after(calls: Seq<Call>, i: int, node: NodeId, lock: Seq<char>) -> bool {
    exists|m: int| i < m < calls.len() && #[trigger] calls[m] == (Call::Release { node, lock })
}

/// **Every request is served once.** In a new simulation let nodes request locks, no node
/// one lock twice; let messages be delivered until nothing is under way, and let every
/// acquisition, once reported, be released. Then each requested lock is reported to
/// the node that requested it, exactly once, and nothing else is reported.
pub proof fn law_every_request_is_served_once(
    sim: Sim,
    n: nat,
    seed: u64,
    policy: QuorumPolicy,
    calls: Seq<Call>,
    node: NodeId,
    lock: Seq<char>,
)
    requires
        sim.wf(),
        sim@ == SimView::start(n, seed, policy),
        sim@.plays(calls),
        requested_once(calls),
        releases_what_is_told(sim@, calls),
        sim@.at(calls, calls.len()).idle(),
        node < n,
    ensures
        calls.contains(Call::Request { node, lock }) <==> exists|i: int|
            0 <= i < calls.len() && #[trigger] sim@.tells(calls, i, node, lock),
        forall|i: int, j: int|
            0 <= i < calls.len() && 0 <= j < calls.len() && #[trigger] sim@.tells(
                calls,
                i,
                node,
                lock,
            ) && #[trigger] sim@.tells(calls, j, node, lock) ==> i == j,
        forall|i: int| 0 <= i < calls.len() ==> (#[trigger] sim@.told(calls, i)).len() <= 1,
{
    let s = sim@;
    let h = sim.history();
    assert(runs(s, h)) by {
        reveal(runs);
        sim.lemma_wf_led();
    }
    if calls.contains(Call::Request { node, lock }) {
        let r = calls.index_of(Call::Request { node, lock });
        lemma_reported_some_time(s, calls, h, r as nat, node, lock);
    }
    assert forall|i: int| 0 <= i < calls.len() && #[trigger] s.tells(
        calls,
        i,
        node,
        lock,
    ) implies calls.contains(Call::Request { node, lock }) by {
        let r = lemma_teller(s, calls, h, i as nat, node, lock);
        assert(calls[r as int] == (Call::Request { node, lock }));
    }
    assert forall|i: int, j: int|
        0 <= i < calls.len() && 0 <= j < calls.len() && #[trigger] s.tells(calls, i, node, lock)
            && #[trigger] s.tells(calls, j, node, lock) implies i == j by {
        if i < j {
            lemma_told_once(s, calls, h, i as nat, j as nat, node, lock);
        } else if j < i {
            lemma_told_once(s, calls, h, j as nat, i as nat, node, lock);
        }
    }
    assert forall|i: int| 0 <= i < calls.len() implies (#[trigger] s.told(calls, i)).len() <= 1 by {
        lemma_one_at_a_time(s, calls, h, i as nat);
    }
}

/// A lock is not reported twice to one node.
proof fn lemma_told_once(
    s: SimView,
    calls: Seq<Call>,
    h: Seq<Event>,
    i: nat,
    j: nat,
    a: NodeId,
    lock: Seq<char>,
)
    requires
        i < j < calls.len(),
        s.plays(calls),
        runs(s, h),
        s.drained(),
        s.nobody_wants(),
        requested_once(calls),
        s.tells(calls, i as int, a, lock),
    ensures
        !s.tells(calls, j as int, a, lock),
{
    lemma_at_start(s, calls);
    if s.tells(calls, j as int, a, lock) {
        let r = lemma_teller(s, calls, h, i, a, lock);
        let w = lemma_teller(s, calls, h, j, a, lock);
        let h1 = lemma_run(s, calls, 0, h, i + 1);
        let req = s.at(calls, i + 1).nodes[a as int].requester.map[lock].req;
        let m = lemma_released_between(s, calls, i + 1, h1, j, lock, a, a, req);
        lemma_gone_for_good(s, calls, h, r, m, j + 1, a, lock);
    }
}

/// After one call there is at most one report.
proof fn lemma_one_at_a_time(s: SimView, calls: Seq<Call>, h: Seq<Event>, i: nat)
    requires
        i < calls.len(),
        s.plays(calls),
        runs(s, h),
        s.drained(),
    ensures
        s.told(calls, i as int).len() <= 1,
{
    reveal(SimView::plays);
    lemma_at_start(s, calls);
    let h1 = lemma_run(s, calls, 0, h, i);
    let u = s.at(calls, i);
    let call = calls[i as int];
    let t = u.called(call);
    let to = lemma_one_reporter(u, h1, call);
    lemma_few_reports(t, t.nodes.len(), to);
}

/// At most one node has something to report after a call, and that is one lock.
proof fn lemma_one_reporter(s: SimView, h: Seq<Event>, call: Call) -> (to: int)
    requires
        runs(s, h),
        s.drained(),
        call is Request || call is Release || call is Step,
    ensures
        forall|p: int|
            0 <= p < s.called(call).nodes.len() ==> (#[trigger] s.called(call).nodes[p]).acquired.len()
                <= (if p == to {
                1int
            } else {
                0int
            }),
{
    reveal(SimView::called);
    let t = s.called(call);
    let to = if call is Step && s.active().len() > 0 {
        lemma_delivery(s, h);
        s.next_link().1 as int
    } else {
        -1
    };
    assert forall|p: int| 0 <= p < t.nodes.len() implies (#[trigger] t.nodes[p]).acquired.len() <= (
    if p == to {
        1int
    } else {
        0int
    }) by {
        assert(t.nodes.len() == s.nodes.len());
        assert(s.nodes[p].acquired.len() == 0);
    }
    to
}

proof fn lemma_few_reports(t: SimView, k: nat, to: int)
    requires
        k <= t.nodes.len(),
        forall|p: int|
            0 <= p < t.nodes.len() ==> (#[trigger] t.nodes[p]).acquired.len() <= (if p == to {
                1int
            } else {
                0int
            }),
    ensures
        t.reports(k).len() <= (if 0 <= to < k {
            1int
        } else {
            0int
        }),
    decreases k,
{
    if k > 0 {
        lemma_few_reports(t, (k - 1) as nat, to);
        assert(t.nodes[k - 1].acquired.len() <= 1);
    }
}

} // verus!
