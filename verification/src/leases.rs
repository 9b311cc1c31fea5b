//! Leases hold while clocks move on in steps and messages arrive between them.
//!
//! A cluster moves from one time to the next by ticking its live nodes and then
//! delivering everything between them. As long as the times are at most
//! [`RENEW_INTERVAL`] apart, every vote for a live node is renewed before its
//! lease lapses; the votes for crashed nodes move on.
use vstd::prelude::*;

use crate::cluster::{
    count, is_about, lemma_count_positive, lemma_count_remove, lemma_sane_next, lemma_sent_none,
    lemma_sent_to_complete, sent_to, ClusterView, Event,
};
use crate::exclusion::{
    lemma_flushed_count, lemma_handle_other_lock, lemma_tick_votes, lemma_unmade,
};
use crate::model::{
    concat_over, rebroadcasts, regrants, renew_fn, renewals, revocations, send_to, NodeView,
};
use crate::types::{
    plain_message, Instant, MessageKind, MessageView, NodeId, OutgoingView, RequestId, LEASE,
    RENEW_INTERVAL,
};

verus! {

impl NodeView {
    /// At time `now`, no renewal is due, and all are due soon.
    pub open spec fn renews_soon(self, now: int) -> bool {
        forall|lock: Seq<char>| #[trigger]
            self.requester.map.contains_key(lock) ==> now < self.requester.map[lock].next_renew
                <= now + RENEW_INTERVAL
    }
}

impl ClusterView {
    /// The vote of `x` for `lock`, if a `live` node has it, has a lease that outlasts
    /// the time after `base`. A counted vote is renewed in time, or its renewal is
    /// under way; a vote under way was given at `base` or later.
    pub open spec fn lease_lasts(
        self,
        lock: Seq<char>,
        x: NodeId,
        base: int,
        live: Set<NodeId>,
    ) -> bool {
        let a = self.arbiter(x, lock);
        a.voted_for matches Some(r) ==> (live.contains(r.node) ==> {
            &&& a.lease > base - 2 * RENEW_INTERVAL + LEASE
            &&& self.requester(r.node, lock) matches Some(q) ==> (q.req == r ==> {
                &&& q.votes.contains(x) ==> a.lease >= q.next_renew - 2 * RENEW_INTERVAL + LEASE
                    || count(self.link(r.node, x), MessageKind::Renew, lock, r) > 0
                &&& count(self.link(x, r.node), MessageKind::Grant, lock, r) > 0 ==> a.lease
                    >= base + LEASE
            })
        })
    }

    /// [`ClusterView::lease_lasts`] for every lock and every live member.
    pub open spec fn leases_last(self, base: int, live: Set<NodeId>) -> bool {
        forall|lock: Seq<char>, x: NodeId|
            self.members.contains(x) && live.contains(x) ==> #[trigger] self.lease_lasts(
                lock,
                x,
                base,
                live,
            )
    }

    /// Everything between `live` nodes was delivered at time `base`, and it is now
    /// `now` for those before `k` and still `base` for the others.
    pub open spec fn timely(self, base: int, now: int, k: int, live: Set<NodeId>) -> bool {
        &&& base <= now <= base + RENEW_INTERVAL
        &&& forall|p: NodeId| #[trigger]
            self.members.contains(p) && live.contains(p) ==> self.nodes[p].renews_soon(
                if p < k {
                    now
                } else {
                    base
                },
            )
        &&& self.leases_last(base, live)
    }
}

/// Fewer live nodes have fewer leases to keep.
pub proof fn lemma_timely_fewer(
    c: ClusterView,
    base: int,
    now: int,
    k: int,
    live: Set<NodeId>,
    fewer: Set<NodeId>,
)
    requires
        c.timely(base, now, k, live),
        fewer.subset_of(live),
    ensures
        c.timely(base, now, k, fewer),
{
    assert forall|lock: Seq<char>, x: NodeId|
        c.members.contains(x) && fewer.contains(x) implies #[trigger] c.lease_lasts(
        lock,
        x,
        base,
        fewer,
    ) by {
        assert(c.lease_lasts(lock, x, base, live));
    }
}

/// What is lost between a live node and a crashed one has no influence on leases.
pub proof fn lemma_timely_links(
    c: ClusterView,
    d: ClusterView,
    base: int,
    now: int,
    k: int,
    live: Set<NodeId>,
)
    requires
        c.timely(base, now, k, live),
        d.members == c.members,
        d.nodes == c.nodes,
        forall|s: NodeId, t: NodeId|
            live.contains(s) && live.contains(t) ==> #[trigger] d.link(s, t) == c.link(s, t),
    ensures
        d.timely(base, now, k, live),
{
    assert forall|lock: Seq<char>, x: NodeId|
        d.members.contains(x) && live.contains(x) implies #[trigger] d.lease_lasts(
        lock,
        x,
        base,
        live,
    ) by {
        assert(c.lease_lasts(lock, x, base, live));
    }
}

/// A tick at most [`RENEW_INTERVAL`] after everything was delivered finds no
/// lapsed lease on a vote for a live node.
pub proof fn lemma_timely_tick_spares(
    c: ClusterView,
    base: int,
    now: Instant,
    k: int,
    live: Set<NodeId>,
    p: NodeId,
)
    requires
        c.timely(base, now as int, k, live),
        c.members.contains(p),
        live.contains(p),
    ensures
        c.spares(Event::Tick { node: p, now }, live),
{
    assert forall|l: Seq<char>| #[trigger]
        c.nodes[p].arbiter.map.contains_key(l) && c.nodes[p].arbiter.map[l].lapsed(
            now,
        ) implies !live.contains(c.nodes[p].arbiter.map[l].voted_for->0.node) by {
        assert(c.lease_lasts(l, p, base, live));
        assert(c.arbiter(p, l) == c.nodes[p].arbiter.map[l]);
    }
}

/// Time has moved on, and no node has ticked yet.
pub proof fn lemma_timely_later(c: ClusterView, base: int, now: int, k: int, live: Set<NodeId>)
    requires
        c.timely(base, base, k, live),
        base <= now <= base + RENEW_INTERVAL,
    ensures
        c.timely(base, now, 0, live),
{
}

// ---- what a step does to leases and requests ----------------------------------------
/// A step of node `a` gives votes with a new lease alone, and otherwise leaves
/// votes and leases alone; it grants what it votes for; it renews nothing and
/// counts no vote but that of `from`.
spec fn gives_new_leases(m: NodeView, n: NodeView, lock: Seq<char>, now: int) -> bool {
    let a = m.arbiter_of(lock);
    let b = n.arbiter_of(lock);
    &&& b.voted_for is Some ==> b.lease == now + LEASE || b.voted_for == a.voted_for && b.lease
        == a.lease
    &&& forall|j: int|
        0 <= j < n.outbox.len() && (#[trigger] n.outbox[j]).msg.kind is Grant
            && n.outbox[j].msg.lock == lock ==> b.lease == now + LEASE
}

/// The request of a node is what it was, but for votes dropped and that of
/// `from`, which counts if `counted`.
spec fn keeps_request(m: NodeView, n: NodeView, lock: Seq<char>, from: NodeId, counted: bool) -> bool {
    n.requester.get(lock) matches Some(q) ==> {
        &&& m.requester.get(lock) matches Some(o) && {
            &&& q.req == o.req
            &&& q.next_renew == o.next_renew
            &&& forall|x: NodeId| #[trigger]
                q.votes.contains(x) ==> o.votes.contains(x) || x == from && counted
        }
    }
}

/// What a delivered message does to leases and requests.
proof fn lemma_handle_leases(m: NodeView, now: Instant, from: NodeId, msg: MessageView, lock: Seq<char>)
    requires
        m.wf(),
        m.outbox.len() == 0,
        now + LEASE <= u64::MAX,
    ensures
        gives_new_leases(m, m.handle(now, from, msg), lock, now as int),
        keeps_request(
            m,
            m.handle(now, from, msg),
            lock,
            from,
            msg.kind is Grant && msg.lock == lock && m.request_of(lock) == Some(msg.req),
        ),
        m.accepts(from, msg) && msg.kind is Renew && msg.lock == lock && m.arbiter_of(
            lock,
        ).voted_for == Some(msg.req) ==> m.handle(now, from, msg).arbiter_of(lock).lease == now
            + LEASE && m.handle(now, from, msg).arbiter_of(lock).voted_for == Some(msg.req),
{
    let n = m.handle(now, from, msg);
    if msg.lock != lock {
        lemma_handle_other_lock(m, now, from, msg, lock);
    } else {
        if m.accepts(from, msg) && m.requester.map.contains_key(lock) {
            let r = m.requester.map[lock];
            crate::model::lemma_vote_added(r.votes, from);
            crate::model::lemma_vote_removed(r.votes, from);
        }
    }
}

/// A vote of a list of messages is one of them.
proof fn lemma_sent_grant(n: NodeView, t: NodeId, lock: Seq<char>, r: RequestId) -> (j: int)
    requires
        count(sent_to(n.outbox, t), MessageKind::Grant, lock, r) > 0,
    ensures
        0 <= j < n.outbox.len(),
        is_about(n.outbox[j].msg, MessageKind::Grant, lock, r),
{
    if forall|j: int|
        0 <= j < n.outbox.len() ==> !is_about(
            (#[trigger] n.outbox[j]).msg,
            MessageKind::Grant,
            lock,
            r,
        ) {
        lemma_sent_none(n.outbox, t, MessageKind::Grant, lock, r);
    }
    choose|j: int|
        0 <= j < n.outbox.len() && is_about(
            (#[trigger] n.outbox[j]).msg,
            MessageKind::Grant,
            lock,
            r,
        )
}

/// A votee is a member.
proof fn lemma_votee_is_member(c: ClusterView, x: NodeId, lock: Seq<char>)
    requires
        c.sane(),
        c.members.contains(x),
    ensures
        c.arbiter(x, lock).voted_for matches Some(r) ==> c.members.contains(r.node),
{
    assert(c.sane_node(x));
    if let Some(r) = c.arbiter(x, lock).voted_for {
        assert(c.made_fn()(r));
    }
}

/// A delivery keeps leases lasting.
proof fn lemma_lasts_deliver(
    c: ClusterView,
    from: NodeId,
    to: NodeId,
    now: Instant,
    base: int,
    k: int,
    live: Set<NodeId>,
    lock: Seq<char>,
    x: NodeId,
)
    requires
        c.sane(),
        c.timely(base, now as int, k, live),
        c.members.contains(to),
        c.members.contains(x),
        live.contains(x),
        c.link(from, to).len() > 0,
        now + LEASE <= u64::MAX,
    ensures
        c.next(Event::Deliver { from, to, now }).lease_lasts(lock, x, base, live),
{
    let m = c.nodes[to];
    let msg = c.link(from, to)[0];
    let n = m.handle(now, from, msg);
    let mid = c.with_link(from, to, c.link(from, to).remove(0));
    let d = c.next(Event::Deliver { from, to, now });
    assert(d == mid.flushed(to, n));
    assert(c.sane_node(to));
    assert(c.sane_link(from, to));
    assert(c.made(msg.req));
    lemma_handle_leases(m, now, from, msg, lock);
    let a = c.arbiter(x, lock);
    let b = d.arbiter(x, lock);
    assert(c.lease_lasts(lock, x, base, live));
    assert(x != to ==> b == a);
    assert(x == to ==> b == n.arbiter_of(lock) && a == m.arbiter_of(lock));
    if let Some(r) = b.voted_for {
        assert(b.lease == now + LEASE || b.voted_for == a.voted_for && b.lease == a.lease);
        if let Some(q) = d.requester(r.node, lock) {
            if q.req == r && live.contains(r.node) {
                let p = r.node;
                assert(c.sane_node(x));
                if p != to {
                    assert(d.nodes[p] == c.nodes[p]);
                }
                assert(c.requester(p, lock) is Some);
                let o = c.requester(p, lock)->0;
                assert(o.req == r && o.next_renew == q.next_renew);
                lemma_sane_next(c, Event::Deliver { from, to, now });
                lemma_votee_is_member(d, x, lock);
                assert(c.nodes[p].requester.map.contains_key(lock));
                assert(q.next_renew <= now + RENEW_INTERVAL);
                let s = c.link(from, to);
                lemma_count_remove(s, 0, MessageKind::Renew, lock, r);
                lemma_count_remove(s, 0, MessageKind::Grant, lock, r);
                lemma_flushed_count(mid, to, n, p, x, MessageKind::Renew, lock, r);
                lemma_flushed_count(mid, to, n, x, p, MessageKind::Grant, lock, r);
                if count(d.link(x, p), MessageKind::Grant, lock, r) > 0 {
                    if x == to && count(sent_to(n.outbox, p), MessageKind::Grant, lock, r) > 0 {
                        let j = lemma_sent_grant(n, p, lock, r);
                        assert(n.outbox[j].msg.kind is Grant);
                    } else {
                        assert(count(c.link(x, p), MessageKind::Grant, lock, r) > 0);
                    }
                }
                if q.votes.contains(x) && b.lease != now + LEASE {
                    if o.votes.contains(x) {
                        if p == from && x == to && is_about(msg, MessageKind::Renew, lock, r) {
                            assert(m.accepts(from, msg));
                        }
                    } else {
                        assert(x == from && p == to);
                        lemma_count_positive(s, 0, MessageKind::Grant, lock, r);
                    }
                }
            }
        }
    }
}

/// A delivery keeps the cluster timely.
pub proof fn lemma_timely_deliver(
    c: ClusterView,
    from: NodeId,
    to: NodeId,
    now: Instant,
    base: int,
    k: int,
    live: Set<NodeId>,
)
    requires
        c.sane(),
        c.timely(base, now as int, k, live),
        now + LEASE <= u64::MAX,
    ensures
        c.next(Event::Deliver { from, to, now }).timely(base, now as int, k, live),
{
    let d = c.next(Event::Deliver { from, to, now });
    if c.members.contains(to) && c.link(from, to).len() > 0 {
        let m = c.nodes[to];
        let msg = c.link(from, to)[0];
        let n = m.handle(now, from, msg);
        assert(c.sane_node(to));
        assert forall|p: NodeId| #[trigger]
            d.members.contains(p) && live.contains(p) implies d.nodes[p].renews_soon(
            if p < k {
                now as int
            } else {
                base
            },
        ) by {
            if p == to {
                assert(d.nodes[p] == n.settled());
                assert(m.renews_soon(
                    if p < k {
                        now as int
                    } else {
                        base
                    },
                ));
                assert forall|l: Seq<char>| #[trigger] n.requester.map.contains_key(l) implies {
                    &&& m.requester.map.contains_key(l)
                    &&& n.requester.map[l].next_renew == m.requester.map[l].next_renew
                } by {
                    lemma_handle_leases(m, now, from, msg, l);
                    assert(n.requester.get(l) is Some);
                }
            } else {
                assert(d.nodes[p] == c.nodes[p]);
            }
        }
        assert forall|lock: Seq<char>, x: NodeId|
            d.members.contains(x) && live.contains(x) implies #[trigger] d.lease_lasts(
            lock,
            x,
            base,
            live,
        ) by {
            lemma_lasts_deliver(c, from, to, now, base, k, live, lock, x);
        }
    }
}

/// A step of `p` that leaves votes, leases and requests alone, but for requests
/// nobody has voted for, and that grants nothing, keeps leases lasting.
proof fn lemma_lasts_frame(
    c: ClusterView,
    p: NodeId,
    n: NodeView,
    base: int,
    live: Set<NodeId>,
    lock: Seq<char>,
    x: NodeId,
)
    requires
        c.lease_lasts(lock, x, base, live),
        n.arbiter == c.nodes[p].arbiter,
        c.arbiter(x, lock).voted_for matches Some(r) ==> (r.node == p ==> (n.requester.get(
            lock,
        ) matches Some(q) ==> (q.req == r ==> c.requester(p, lock) == Some(q)))),
        forall|j: int| 0 <= j < n.outbox.len() ==> !((#[trigger] n.outbox[j]).msg.kind is Grant),
    ensures
        c.flushed(p, n).lease_lasts(lock, x, base, live),
{
    let d = c.flushed(p, n);
    if let Some(r) = d.arbiter(x, lock).voted_for {
        lemma_flushed_count(c, p, n, r.node, x, MessageKind::Renew, lock, r);
        lemma_flushed_count(c, p, n, x, r.node, MessageKind::Grant, lock, r);
        lemma_sent_none(n.outbox, r.node, MessageKind::Grant, lock, r);
    }
}

/// A request keeps the cluster timely.
pub proof fn lemma_timely_request(
    c: ClusterView,
    p: NodeId,
    now: Instant,
    k: int,
    live: Set<NodeId>,
    lock: Seq<char>,
)
    requires
        c.sane(),
        c.timely(now as int, now as int, k, live),
        now + RENEW_INTERVAL <= u64::MAX,
    ensures
        c.next(Event::Request { node: p, now, lock }).timely(now as int, now as int, k, live),
{
    let d = c.next(Event::Request { node: p, now, lock });
    let base = now as int;
    if c.members.contains(p) && c.nodes[p].lamport < u64::MAX {
        let m = c.nodes[p];
        let n = m.request(now, lock);
        assert(c.sane_node(p));
        assert forall|y: NodeId| #[trigger]
            d.members.contains(y) && live.contains(y) implies d.nodes[y].renews_soon(base) by {
            assert(c.nodes[y].renews_soon(base));
            if y != p {
                assert(d.nodes[y] == c.nodes[y]);
            }
        }
        assert forall|l: Seq<char>, x: NodeId|
            d.members.contains(x) && live.contains(x) implies #[trigger] d.lease_lasts(
            l,
            x,
            base,
            live,
        ) by {
            assert(c.lease_lasts(l, x, base, live));
            if l == lock && !m.requester.map.contains_key(lock) {
                lemma_unmade(c, x, p, lock, m.next_request());
            }
            lemma_lasts_frame(c, p, n, base, live, l, x);
        }
    }
}

/// A release keeps the cluster timely.
pub proof fn lemma_timely_release(
    c: ClusterView,
    p: NodeId,
    base: int,
    now: int,
    k: int,
    live: Set<NodeId>,
    lock: Seq<char>,
)
    requires
        c.sane(),
        c.timely(base, now, k, live),
    ensures
        c.next(Event::Release { node: p, lock }).timely(base, now, k, live),
{
    let d = c.next(Event::Release { node: p, lock });
    if c.members.contains(p) {
        let m = c.nodes[p];
        let n = m.release(lock);
        assert(c.sane_node(p));
        assert forall|y: NodeId| #[trigger]
            d.members.contains(y) && live.contains(y) implies d.nodes[y].renews_soon(
            if y < k {
                now
            } else {
                base
            },
        ) by {
            if y != p {
                assert(d.nodes[y] == c.nodes[y]);
            }
        }
        assert forall|l: Seq<char>, x: NodeId|
            d.members.contains(x) && live.contains(x) implies #[trigger] d.lease_lasts(
            l,
            x,
            base,
            live,
        ) by {
            assert(c.lease_lasts(l, x, base, live));
            lemma_lasts_frame(c, p, n, base, live, l, x);
        }
    }
}

/// What is sent for one of the keys is sent.
proof fn lemma_concat_has(
    keys: Seq<Seq<char>>,
    f: spec_fn(Seq<char>) -> Seq<OutgoingView>,
    i: int,
    o: OutgoingView,
)
    requires
        0 <= i < keys.len(),
        f(keys[i]).contains(o),
    ensures
        concat_over(keys, f).contains(o),
    decreases keys.len(),
{
    let init = keys.drop_last();
    let head = concat_over(init, f);
    let tail = f(keys.last());
    let all = concat_over(keys, f);
    assert(all == head + tail);
    if i < keys.len() - 1 {
        lemma_concat_has(init, f, i, o);
        let j = head.index_of(o);
        assert(all[j] == o);
    } else {
        let j = tail.index_of(o);
        assert(all[head.len() + j] == o);
    }
}

/// A due renewal is sent to every voter.
proof fn lemma_renewal_sent(n: NodeView, now: Instant, lock: Seq<char>, x: NodeId)
    requires
        n.wf(),
        n.requester.map.contains_key(lock),
        n.requester.map[lock].renew_due(now),
        n.requester.map[lock].votes.contains(x),
    ensures
        count(
            sent_to(n.tick(now).outbox, x),
            MessageKind::Renew,
            lock,
            n.requester.map[lock].req,
        ) > 0,
{
    let q = n.requester.map[lock];
    let msg = plain_message(MessageKind::Renew, lock, q.req);
    let o = send_to(x, msg);
    let f = renew_fn(n.requester, now);
    let j = q.votes.index_of(x);
    assert(f(lock)[j] == o);
    assert(n.requester.keys.contains(lock));
    lemma_concat_has(n.requester.keys, f, n.requester.keys.index_of(lock), o);
    let out = n.tick(now).outbox;
    let e = renewals(n.requester, now);
    let before = n.outbox + (revocations(n.arbiter, now) + regrants(n.arbiter, now));
    let behind = rebroadcasts(n.requester, n.targets(), now);
    assert(out =~= before + e + behind);
    let i = before.len() + e.index_of(o);
    assert(out[i] == o);
    lemma_sent_to_complete(out, i);
    let s = sent_to(out, x);
    lemma_count_positive(s, s.index_of(msg), MessageKind::Renew, lock, q.req);
}

/// Ticking the next node keeps leases lasting.
proof fn lemma_lasts_tick(
    c: ClusterView,
    p: NodeId,
    base: int,
    now: Instant,
    k: int,
    live: Set<NodeId>,
    lock: Seq<char>,
    x: NodeId,
)
    requires
        c.sane(),
        c.timely(base, now as int, k, live),
        c.members.contains(p),
        live.contains(p),
        c.members.contains(x),
        live.contains(x),
        now + LEASE <= u64::MAX,
    ensures
        c.next(Event::Tick { node: p, now }).lease_lasts(lock, x, base, live),
{
    let m = c.nodes[p];
    let n = m.tick(now);
    let d = c.next(Event::Tick { node: p, now });
    assert(d == c.flushed(p, n));
    assert(c.sane_node(p));
    assert(c.lease_lasts(lock, x, base, live));
    let a = c.arbiter(x, lock);
    let b = d.arbiter(x, lock);
    if let Some(r) = b.voted_for {
        let y = r.node;
        lemma_tick_votes(m, now, lock, r, y);
        lemma_flushed_count(c, p, n, y, x, MessageKind::Renew, lock, r);
        lemma_flushed_count(c, p, n, x, y, MessageKind::Grant, lock, r);
        lemma_sane_next(c, Event::Tick { node: p, now });
        lemma_votee_is_member(d, x, lock);
        assert(b.lease == now + LEASE || b.voted_for == a.voted_for && b.lease == a.lease);
        if live.contains(y) {
            assert(c.nodes[y].renews_soon(
                if y < k {
                    now as int
                } else {
                    base
                },
            ));
            if let Some(q) = d.requester(y, lock) {
                assert(c.requester(y, lock) is Some);
                let o = c.requester(y, lock)->0;
                assert(c.nodes[y].requester.map.contains_key(lock));
                if y == p && o.votes.contains(x) && o.renew_due(now) {
                    lemma_renewal_sent(m, now, lock, x);
                }
            }
        }
    }
}

/// Ticking the next node keeps the cluster timely.
pub proof fn lemma_timely_tick(
    c: ClusterView,
    p: NodeId,
    base: int,
    now: Instant,
    live: Set<NodeId>,
)
    requires
        c.sane(),
        c.timely(base, now as int, p as int, live),
        c.members.contains(p),
        live.contains(p),
        now + LEASE <= u64::MAX,
    ensures
        c.next(Event::Tick { node: p, now }).timely(base, now as int, p + 1, live),
{
    let m = c.nodes[p];
    let n = m.tick(now);
    let d = c.next(Event::Tick { node: p, now });
    assert(c.sane_node(p));
    assert(m.renews_soon(base));
    assert forall|y: NodeId| #[trigger]
        d.members.contains(y) && live.contains(y) implies d.nodes[y].renews_soon(
        if y < p + 1 {
            now as int
        } else {
            base
        },
    ) by {
        if y != p {
            assert(d.nodes[y] == c.nodes[y]);
        } else {
            assert forall|l: Seq<char>| #[trigger] n.requester.map.contains_key(l) implies now
                < n.requester.map[l].next_renew <= now + RENEW_INTERVAL by {
                assert(m.requester.map.contains_key(l));
            }
        }
    }
    assert forall|l: Seq<char>, x: NodeId|
        d.members.contains(x) && live.contains(x) implies #[trigger] d.lease_lasts(
        l,
        x,
        base,
        live,
    ) by {
        lemma_lasts_tick(c, p, base, now, p as int, live, l, x);
    }
}

/// The clock of a crashed node stands still.
pub proof fn lemma_timely_skip(
    c: ClusterView,
    p: NodeId,
    base: int,
    now: int,
    live: Set<NodeId>,
)
    requires
        c.timely(base, now, p as int, live),
        !live.contains(p),
    ensures
        c.timely(base, now, p + 1, live),
{
    assert forall|y: NodeId| #[trigger]
        c.members.contains(y) && live.contains(y) implies c.nodes[y].renews_soon(
        if y < p + 1 {
            now
        } else {
            base
        },
    ) by {
        assert(y != p);
    }
}

/// Once everything has been delivered, the leases outlast the next step of time.
pub proof fn lemma_timely_rest(c: ClusterView, base: int, now: int, k: int, live: Set<NodeId>)
    requires
        c.sane(),
        c.all_wait_well(live),
        c.at_rest(live),
        c.timely(base, now, k, live),
        forall|p: NodeId| #[trigger] c.members.contains(p) ==> p < k,
    ensures
        c.timely(now, now, k, live),
{
    assert forall|lock: Seq<char>, x: NodeId|
        c.members.contains(x) && live.contains(x) implies #[trigger] c.lease_lasts(
        lock,
        x,
        now,
        live,
    ) by {
        assert(c.lease_lasts(lock, x, base, live));
        if let Some(r) = c.arbiter(x, lock).voted_for {
            let p = r.node;
            lemma_votee_is_member(c, x, lock);
            if live.contains(p) {
                assert(c.waits_well(lock, x, p, live.contains(x)));
                assert(c.link(p, x).len() == 0);
                assert(c.link(x, p).len() == 0);
                assert(c.known_at(x, lock, r));
                assert(c.current(p, lock) == Some(r));
                assert(c.nodes[p].renews_soon(now));
                assert(c.nodes[p].requester.map.contains_key(lock));
            }
        }
    }
}

} // verus!
