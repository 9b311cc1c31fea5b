//! Mutual exclusion: at most one node holds a lock.
//!
//! The proof follows single votes. A vote of arbiter `x` for the current
//! request of node `p` is in one place at a time: granted and under way, counted
//! by `p`, or under way back. While it is, `x` has voted for that request and no
//! other. Two holders' quorums share an arbiter, which would have to have voted
//! for both.
//!
//! All this is followed for the requests of a set of live nodes, from which no vote
//! is taken away. The votes for the others may lapse and be given away.
use vstd::prelude::*;

use crate::cluster::{
    after, count, is_about, leases_hold, lemma_concat_count, lemma_concat_elements,
    lemma_count_append, lemma_count_positive, lemma_count_remove, lemma_count_zero,
    lemma_leases_spare, lemma_sane_after, lemma_sane_next, lemma_sane_with_link, lemma_sent_append,
    lemma_sent_none, lemma_sent_one, sent_to, spares, ClusterView, Event,
};
use crate::model::{
    arbiter_after, arbiter_grant_next, arbiter_released, arbiter_yielded, concat_over,
    grant_message, lemma_vote_added, lemma_vote_removed, rebroadcast_fn, regrant_fn, renew_fn,
    revoke_fn, send_to, smallest, ArbiterView, NodeView, RequesterView,
};
use crate::quorum::{is_quorum, law_quorums_intersect, quorum_targets, valid_members, QuorumPolicy};
use crate::types::{
    plain_message, Instant, MessageKind, MessageView, NodeId, OutgoingView, RequestId,
};

verus! {

/// One if the condition holds, else zero.
pub open spec fn one_if(b: bool) -> nat {
    if b {
        1
    } else {
        0
    }
}

/// No inquiry about `r` is ahead of a grant to `r`.
pub open spec fn grants_first(s: Seq<MessageView>, lock: Seq<char>, r: RequestId) -> bool {
    forall|i: int, j: int|
        0 <= i < j < s.len() && is_about(#[trigger] s[i], MessageKind::Inquire, lock, r)
            ==> !is_about(#[trigger] s[j], MessageKind::Grant, lock, r)
}

impl ClusterView {
    /// The vote of `x` for the current request of `p` is in at most one place,
    /// and only while `x` has voted for it; a vote that was asked back is on its
    /// way back, or the question is on its way; a current request has not been
    /// released.
    pub open spec fn vote_in_one_place(self, lock: Seq<char>, x: NodeId, p: NodeId) -> bool {
        self.requester(p, lock) matches Some(q) ==> {
            let r = q.req;
            let a = self.arbiter(x, lock);
            let there = self.link(x, p);
            let back = self.link(p, x);
            &&& count(there, MessageKind::Grant, lock, r) + one_if(q.votes.contains(x)) + count(
                back,
                MessageKind::Yield,
                lock,
                r,
            ) <= one_if(a.voted_for == Some(r))
            &&& count(there, MessageKind::Inquire, lock, r) + count(
                back,
                MessageKind::Yield,
                lock,
                r,
            ) <= one_if(a.voted_for == Some(r) && a.inquired)
            &&& grants_first(there, lock, r)
            &&& count(back, MessageKind::Release, lock, r) == 0
        }
    }

    /// [`ClusterView::vote_in_one_place`] for every lock, every voter and every
    /// `live` requester.
    pub open spec fn votes_in_one_place(self, live: Set<NodeId>) -> bool {
        forall|lock: Seq<char>, x: NodeId, p: NodeId|
            self.members.contains(x) && self.members.contains(p) && live.contains(p)
                ==> #[trigger] self.vote_in_one_place(lock, x, p)
    }
}

/// Taking a message away keeps the order.
proof fn lemma_grants_first_remove(s: Seq<MessageView>, k: int, lock: Seq<char>, r: RequestId)
    requires
        grants_first(s, lock, r),
        0 <= k < s.len(),
    ensures
        grants_first(s.remove(k), lock, r),
{
    let t = s.remove(k);
    assert forall|i: int, j: int|
        0 <= i < j < t.len() && is_about(#[trigger] t[i], MessageKind::Inquire, lock, r)
            implies !is_about(#[trigger] t[j], MessageKind::Grant, lock, r) by {
        let i2 = if i < k {
            i
        } else {
            i + 1
        };
        let j2 = if j < k {
            j
        } else {
            j + 1
        };
        assert(t[i] == s[i2] && t[j] == s[j2]);
    }
}

/// Appending keeps the order unless it puts a grant behind an inquiry.
proof fn lemma_grants_first_append(
    s: Seq<MessageView>,
    t: Seq<MessageView>,
    lock: Seq<char>,
    r: RequestId,
)
    requires
        grants_first(s, lock, r),
        grants_first(t, lock, r),
        count(s, MessageKind::Inquire, lock, r) == 0 || count(t, MessageKind::Grant, lock, r) == 0,
    ensures
        grants_first(s + t, lock, r),
{
    lemma_count_zero(s, MessageKind::Inquire, lock, r);
    lemma_count_zero(t, MessageKind::Grant, lock, r);
    let u = s + t;
    assert forall|i: int, j: int|
        0 <= i < j < u.len() && is_about(#[trigger] u[i], MessageKind::Inquire, lock, r)
            implies !is_about(#[trigger] u[j], MessageKind::Grant, lock, r) by {
        if j < s.len() {
            assert(u[i] == s[i] && u[j] == s[j]);
        } else if i >= s.len() {
            assert(u[i] == t[i - s.len()] && u[j] == t[j - s.len()]);
        } else {
            assert(u[i] == s[i] && u[j] == t[j - s.len()]);
        }
    }
}

/// Losing a message, or taking it off the link to deliver it, leaves every vote
/// in at most one place.
proof fn lemma_place_remove(
    c: ClusterView,
    from: NodeId,
    to: NodeId,
    k: int,
    lock: Seq<char>,
    x: NodeId,
    p: NodeId,
)
    requires
        c.vote_in_one_place(lock, x, p),
        0 <= k < c.link(from, to).len(),
    ensures
        c.with_link(from, to, c.link(from, to).remove(k)).vote_in_one_place(lock, x, p),
{
    if let Some(q) = c.requester(p, lock) {
        let r = q.req;
        let s = c.link(from, to);
        if from == x && to == p {
            lemma_count_remove(s, k, MessageKind::Grant, lock, r);
            lemma_count_remove(s, k, MessageKind::Inquire, lock, r);
            lemma_grants_first_remove(s, k, lock, r);
        }
        if from == p && to == x {
            lemma_count_remove(s, k, MessageKind::Yield, lock, r);
            lemma_count_remove(s, k, MessageKind::Release, lock, r);
        }
    }
}

/// What a node sends is counted on top of what was under way.
pub proof fn lemma_flushed_count(
    c: ClusterView,
    a: NodeId,
    n: NodeView,
    s: NodeId,
    t: NodeId,
    kind: MessageKind,
    lock: Seq<char>,
    r: RequestId,
)
    ensures
        count(c.flushed(a, n).link(s, t), kind, lock, r) == count(c.link(s, t), kind, lock, r)
            + if s == a {
            count(sent_to(n.outbox, t), kind, lock, r)
        } else {
            0
        },
{
    if s == a {
        lemma_count_append(c.link(s, t), sent_to(n.outbox, t), kind, lock, r);
    }
}

/// `out` has no message that moves a vote of request `r`.
pub open spec fn moves_no_vote(out: Seq<OutgoingView>, lock: Seq<char>, r: RequestId) -> bool {
    forall|j: int|
        0 <= j < out.len() ==> {
            let m = (#[trigger] out[j]).msg;
            &&& !is_about(m, MessageKind::Grant, lock, r)
            &&& !is_about(m, MessageKind::Inquire, lock, r)
            &&& !is_about(m, MessageKind::Yield, lock, r)
            &&& !is_about(m, MessageKind::Release, lock, r)
        }
}

/// A step that changes neither the vote of `x` nor, but for dropping votes, the
/// request of `p`, and that sends nothing that moves a vote of that request.
proof fn lemma_place_frame(
    c: ClusterView,
    a: NodeId,
    n: NodeView,
    lock: Seq<char>,
    x: NodeId,
    p: NodeId,
)
    requires
        c.vote_in_one_place(lock, x, p),
        x == a ==> {
            let before = c.arbiter(a, lock);
            let now = n.arbiter_of(lock);
            now.voted_for == before.voted_for && (before.voted_for is Some ==> now.inquired
                == before.inquired)
        },
        p == a ==> (n.requester.get(lock) matches Some(q) ==> {
            &&& c.requester(p, lock) is Some
            &&& c.requester(p, lock)->0.req == q.req
            &&& q.votes.contains(x) ==> c.requester(p, lock)->0.votes.contains(x)
        }),
        c.requester(p, lock) matches Some(q) ==> moves_no_vote(n.outbox, lock, q.req),
    ensures
        c.flushed(a, n).vote_in_one_place(lock, x, p),
{
    let d = c.flushed(a, n);
    if let Some(q) = d.requester(p, lock) {
        let r = q.req;
        assert(c.requester(p, lock) is Some);
        lemma_flushed_count(c, a, n, x, p, MessageKind::Grant, lock, r);
        lemma_flushed_count(c, a, n, x, p, MessageKind::Inquire, lock, r);
        lemma_flushed_count(c, a, n, p, x, MessageKind::Yield, lock, r);
        lemma_flushed_count(c, a, n, p, x, MessageKind::Release, lock, r);
        lemma_sent_none(n.outbox, p, MessageKind::Grant, lock, r);
        lemma_sent_none(n.outbox, p, MessageKind::Inquire, lock, r);
        lemma_sent_none(n.outbox, x, MessageKind::Yield, lock, r);
        lemma_sent_none(n.outbox, x, MessageKind::Release, lock, r);
        if x == a {
            lemma_grants_first_append(c.link(x, p), sent_to(n.outbox, p), lock, r);
        }
    }
}

/// The vote of `a` for the current request of `p` is nowhere.
pub open spec fn vote_nowhere(c: ClusterView, lock: Seq<char>, a: NodeId, p: NodeId) -> bool {
    c.requester(p, lock) matches Some(q) ==> {
        &&& count(c.link(a, p), MessageKind::Grant, lock, q.req) == 0
        &&& count(c.link(a, p), MessageKind::Inquire, lock, q.req) == 0
        &&& count(c.link(p, a), MessageKind::Yield, lock, q.req) == 0
        &&& !q.votes.contains(a)
    }
}

/// What an arbiter sends when its vote goes to `m`.
pub open spec fn vote_messages(lock: Seq<char>, m: Option<RequestId>, fence: u64) -> Seq<
    OutgoingView,
> {
    match m {
        Some(r) => seq![grant_message(lock, r, fence)],
        None => Seq::empty(),
    }
}

/// A step in which arbiter `a` gives its vote, which nobody has, to `m`, if
/// anybody waits, and tells its node.
proof fn lemma_place_granted(
    c: ClusterView,
    a: NodeId,
    n: NodeView,
    m: Option<RequestId>,
    fence: u64,
    lock: Seq<char>,
    x: NodeId,
    p: NodeId,
)
    requires
        c.sane(),
        c.members.contains(p),
        c.vote_in_one_place(lock, x, p),
        n.requester == c.nodes[a].requester,
        n.outbox == vote_messages(lock, m, fence),
        n.arbiter_of(lock).voted_for == m,
        !n.arbiter_of(lock).inquired,
        vote_nowhere(c, lock, a, p),
    ensures
        c.flushed(a, n).vote_in_one_place(lock, x, p),
{
    let d = c.flushed(a, n);
    if let Some(q) = d.requester(p, lock) {
        let r = q.req;
        assert(c.requester(p, lock) == Some(q));
        lemma_flushed_count(c, a, n, x, p, MessageKind::Grant, lock, r);
        lemma_flushed_count(c, a, n, x, p, MessageKind::Inquire, lock, r);
        lemma_flushed_count(c, a, n, p, x, MessageKind::Yield, lock, r);
        lemma_flushed_count(c, a, n, p, x, MessageKind::Release, lock, r);
        lemma_count_none(lock, r);
        if let Some(w) = m {
            let o = grant_message(lock, w, fence);
            lemma_sent_one(o, p);
            lemma_sent_one(o, x);
            lemma_count_one(o.msg, lock, r);
        }
        assert(c.sane_node(p));
        assert(r.node == p);
        if x == a {
            lemma_grants_first_append(c.link(x, p), sent_to(n.outbox, p), lock, r);
        }
    }
}

/// Counting in a list of one message.
proof fn lemma_count_one(m: MessageView, lock: Seq<char>, r: RequestId)
    ensures
        forall|kind: MessageKind| #[trigger]
            count(seq![m], kind, lock, r) == one_if(is_about(m, kind, lock, r)),
{
    assert forall|kind: MessageKind| #[trigger]
        count(seq![m], kind, lock, r) == one_if(is_about(m, kind, lock, r)) by {
        assert(seq![m].drop_last() =~= Seq::empty());
        assert(seq![m].last() == m);
        assert(count(seq![m].drop_last(), kind, lock, r) == 0);
    }
}

/// Counting in an empty list.
proof fn lemma_count_none(lock: Seq<char>, r: RequestId)
    ensures
        forall|kind: MessageKind| #[trigger] count(Seq::empty(), kind, lock, r) == 0,
{
}

/// A delivered message about another lock changes nothing for `lock`.
pub proof fn lemma_handle_other_lock(
    n: NodeView,
    now: Instant,
    from: NodeId,
    msg: MessageView,
    lock: Seq<char>,
)
    requires
        n.outbox.len() == 0,
        msg.lock != lock,
    ensures
        n.handle(now, from, msg).arbiter.get(lock) == n.arbiter.get(lock),
        n.handle(now, from, msg).requester.get(lock) == n.requester.get(lock),
        forall|j: int|
            0 <= j < n.handle(now, from, msg).outbox.len() ==> (#[trigger] n.handle(
                now,
                from,
                msg,
            ).outbox[j]).msg.lock == msg.lock,
{
}

/// An arbiter's next votee, if anybody waits.
pub open spec fn next_votee(a: ArbiterView) -> Option<RequestId> {
    if a.queue =~= Set::empty() {
        None
    } else {
        Some(smallest(a.queue))
    }
}

/// Delivering a message to an arbiter keeps votes in one place.
proof fn lemma_place_deliver_arbiter(
    c: ClusterView,
    from: NodeId,
    to: NodeId,
    now: Instant,
    lock: Seq<char>,
    x: NodeId,
    p: NodeId,
)
    requires
        c.sane(),
        c.members.contains(to),
        c.members.contains(p),
        c.link(from, to).len() > 0,
        c.link(from, to)[0].lock == lock,
        c.nodes[to].accepts(from, c.link(from, to)[0]),
        c.link(from, to)[0].kind.to_arbiter(),
        c.vote_in_one_place(lock, x, p),
        c.vote_in_one_place(lock, to, p),
    ensures
        c.next(Event::Deliver { from, to, now }).vote_in_one_place(lock, x, p),
{
    let link = c.link(from, to);
    let msg = link[0];
    let b = c.with_link(from, to, link.remove(0));
    let m = c.nodes[to];
    let n = m.handle(now, from, msg);
    lemma_place_remove(c, from, to, 0, lock, x, p);
    lemma_place_remove(c, from, to, 0, lock, to, p);
    lemma_sane_with_link(c, from, to, 0);
    assert(c.sane_node(to));
    assert(c.sane_node(p));
    let a = m.arbiter_of(lock);
    assert(a.wf());
    let req = msg.req;
    assert(b.requester(p, lock) == c.requester(p, lock));
    match msg.kind {
        MessageKind::Request => {
            match a.voted_for {
                None => {
                    assert(vote_nowhere(b, lock, to, p));
                    assert(n.outbox =~= vote_messages(lock, Some(req), a.fence_max));
                    lemma_place_granted(b, to, n, Some(req), a.fence_max, lock, x, p);
                },
                Some(current) => {
                    if current != req && req.precedes(current) && !a.inquired {
                        lemma_place_inquired(b, to, n, current, lock, x, p);
                    } else {
                        assert(n.outbox.len() == 0);
                        lemma_place_frame(b, to, n, lock, x, p);
                    }
                },
            }
        },
        MessageKind::Yield => {
            if a.voted_for == Some(req) {
                let e = arbiter_yielded(a, req);
                assert(vote_nowhere(b, lock, to, p)) by {
                    if let Some(q) = c.requester(p, lock) {
                        if q.req == req {
                            assert(from == p);
                            lemma_count_remove(link, 0, MessageKind::Yield, lock, req);
                            lemma_count_remove(link, 0, MessageKind::Grant, lock, req);
                            lemma_count_remove(link, 0, MessageKind::Inquire, lock, req);
                        }
                    }
                }
                assert(n.outbox =~= vote_messages(lock, next_votee(e), a.fence_max));
                lemma_place_granted(b, to, n, next_votee(e), a.fence_max, lock, x, p);
            } else {
                lemma_place_frame(b, to, n, lock, x, p);
            }
        },
        MessageKind::Release => {
            let e = arbiter_released(a, req, msg.fence);
            if a.voted_for == Some(req) {
                assert(vote_nowhere(b, lock, to, p)) by {
                    if let Some(q) = c.requester(p, lock) {
                        if q.req == req {
                            assert(from == p);
                            lemma_count_positive(link, 0, MessageKind::Release, lock, req);
                        }
                    }
                }
                assert(n.outbox =~= vote_messages(lock, next_votee(e), e.fence_max));
                lemma_place_granted(b, to, n, next_votee(e), e.fence_max, lock, x, p);
            } else {
                assert(n.outbox.len() == 0);
                lemma_place_frame(b, to, n, lock, x, p);
            }
        },
        MessageKind::Confirm => {
            lemma_place_frame(b, to, n, lock, x, p);
        },
        MessageKind::Renew => {
            lemma_place_frame(b, to, n, lock, x, p);
        },
        _ => {},
    }
}

/// A step in which arbiter `a` asks its votee `v` to yield.
proof fn lemma_place_inquired(
    c: ClusterView,
    a: NodeId,
    n: NodeView,
    v: RequestId,
    lock: Seq<char>,
    x: NodeId,
    p: NodeId,
)
    requires
        c.sane(),
        c.members.contains(p),
        c.vote_in_one_place(lock, x, p),
        n.requester == c.nodes[a].requester,
        n.outbox.len() == 1,
        n.outbox[0].to == v.node,
        is_about(n.outbox[0].msg, MessageKind::Inquire, lock, v),
        c.arbiter(a, lock).voted_for == Some(v),
        !c.arbiter(a, lock).inquired,
        n.arbiter_of(lock).voted_for == Some(v),
        n.arbiter_of(lock).inquired,
    ensures
        c.flushed(a, n).vote_in_one_place(lock, x, p),
{
    let d = c.flushed(a, n);
    if let Some(q) = d.requester(p, lock) {
        let r = q.req;
        assert(c.requester(p, lock) == Some(q));
        let o = n.outbox[0];
        assert(n.outbox =~= seq![o]);
        lemma_flushed_count(c, a, n, x, p, MessageKind::Grant, lock, r);
        lemma_flushed_count(c, a, n, x, p, MessageKind::Inquire, lock, r);
        lemma_flushed_count(c, a, n, p, x, MessageKind::Yield, lock, r);
        lemma_flushed_count(c, a, n, p, x, MessageKind::Release, lock, r);
        lemma_count_none(lock, r);
        lemma_sent_one(o, p);
        lemma_sent_one(o, x);
        lemma_count_one(o.msg, lock, r);
        assert(c.sane_node(p));
        assert(r.node == p);
        if x == a {
            lemma_grants_first_append(c.link(x, p), sent_to(n.outbox, p), lock, r);
        }
    }
}

/// Delivering a message to a requester keeps votes in one place.
proof fn lemma_place_deliver_requester(
    c: ClusterView,
    from: NodeId,
    to: NodeId,
    now: Instant,
    lock: Seq<char>,
    x: NodeId,
    p: NodeId,
)
    requires
        c.sane(),
        c.members.contains(to),
        c.members.contains(p),
        c.link(from, to).len() > 0,
        c.link(from, to)[0].lock == lock,
        c.nodes[to].accepts(from, c.link(from, to)[0]),
        !c.link(from, to)[0].kind.to_arbiter(),
        c.vote_in_one_place(lock, x, p),
    ensures
        c.next(Event::Deliver { from, to, now }).vote_in_one_place(lock, x, p),
{
    let link = c.link(from, to);
    let msg = link[0];
    let b = c.with_link(from, to, link.remove(0));
    let m = c.nodes[to];
    let n = m.handle(now, from, msg);
    let d = b.flushed(to, n);
    lemma_place_remove(c, from, to, 0, lock, x, p);
    lemma_sane_with_link(c, from, to, 0);
    assert(c.sane_node(to));
    assert(c.sane_node(p));
    let req = msg.req;
    assert(b.requester(p, lock) == c.requester(p, lock));
    match msg.kind {
        MessageKind::Grant => {
            if m.targets().contains(from) && m.request_of(lock) == Some(req) && p == to && x
                == from {
                let q = m.requester.map[lock];
                lemma_vote_added(q.votes, from);
                assert(moves_no_vote(n.outbox, lock, req));
                lemma_count_remove(link, 0, MessageKind::Grant, lock, req);
                lemma_count_remove(link, 0, MessageKind::Inquire, lock, req);
                lemma_count_remove(link, 0, MessageKind::Yield, lock, req);
                lemma_flushed_count(b, to, n, x, p, MessageKind::Grant, lock, req);
                lemma_flushed_count(b, to, n, x, p, MessageKind::Inquire, lock, req);
                lemma_flushed_count(b, to, n, p, x, MessageKind::Yield, lock, req);
                lemma_flushed_count(b, to, n, p, x, MessageKind::Release, lock, req);
                lemma_sent_none(n.outbox, p, MessageKind::Grant, lock, req);
                lemma_sent_none(n.outbox, p, MessageKind::Inquire, lock, req);
                lemma_sent_none(n.outbox, x, MessageKind::Yield, lock, req);
                lemma_sent_none(n.outbox, x, MessageKind::Release, lock, req);
                if x == to {
                    lemma_grants_first_append(b.link(x, p), sent_to(n.outbox, p), lock, req);
                }
                assert(d.requester(p, lock)->0.req == req);
            } else {
                if m.request_of(lock) == Some(req) {
                    lemma_vote_added(m.requester.map[lock].votes, from);
                }
                lemma_place_frame(b, to, n, lock, x, p);
            }
        },
        MessageKind::Inquire => {
            if m.request_of(lock) == Some(req) && !m.requester.map[lock].locked && p == to {
                let q = m.requester.map[lock];
                lemma_vote_removed(q.votes, from);
                let o = n.outbox[0];
                assert(n.outbox =~= seq![o]);
                lemma_sent_one(o, p);
                lemma_sent_one(o, x);
                lemma_count_one(o.msg, lock, req);
                lemma_count_none(lock, req);
                lemma_flushed_count(b, to, n, x, p, MessageKind::Grant, lock, req);
                lemma_flushed_count(b, to, n, x, p, MessageKind::Inquire, lock, req);
                lemma_flushed_count(b, to, n, p, x, MessageKind::Yield, lock, req);
                lemma_flushed_count(b, to, n, p, x, MessageKind::Release, lock, req);
                if x == from {
                    lemma_count_remove(link, 0, MessageKind::Grant, lock, req);
                    lemma_count_remove(link, 0, MessageKind::Inquire, lock, req);
                    lemma_count_remove(link, 0, MessageKind::Yield, lock, req);
                    assert(count(link, MessageKind::Grant, lock, req) == 0) by {
                        lemma_count_zero(link, MessageKind::Grant, lock, req);
                        assert forall|i: int| 0 <= i < link.len() implies !is_about(
                            #[trigger] link[i],
                            MessageKind::Grant,
                            lock,
                            req,
                        ) by {
                            if i > 0 {
                                assert(is_about(link[0], MessageKind::Inquire, lock, req));
                            }
                        }
                    }
                }
                if x == to {
                    lemma_grants_first_append(b.link(x, p), sent_to(n.outbox, p), lock, req);
                }
                assert(d.requester(p, lock)->0.req == req);
            } else {
                if m.request_of(lock) == Some(req) {
                    lemma_vote_removed(m.requester.map[lock].votes, from);
                }
                if let Some(q) = c.requester(p, lock) {
                    if p != to {
                        assert(q.req.node == p);
                    }
                }
                lemma_place_frame(b, to, n, lock, x, p);
            }
        },
        MessageKind::Revoked => {
            if m.request_of(lock) == Some(req) {
                lemma_vote_removed(m.requester.map[lock].votes, from);
            }
            if p == to && m.request_of(lock) == Some(req) && n.requester.get(lock) is None {
                assert(d.requester(p, lock) is None);
            } else {
                if let Some(q) = c.requester(p, lock) {
                    assert(q.req.node == p);
                }
                lemma_place_frame(b, to, n, lock, x, p);
            }
        },
        _ => {},
    }
}

/// Every delivery keeps votes in one place.
proof fn lemma_place_deliver(
    c: ClusterView,
    from: NodeId,
    to: NodeId,
    now: Instant,
    lock: Seq<char>,
    x: NodeId,
    p: NodeId,
)
    requires
        c.sane(),
        c.vote_in_one_place(lock, x, p),
        c.vote_in_one_place(lock, to, p),
        c.members.contains(to),
        c.members.contains(x),
        c.members.contains(p),
        c.link(from, to).len() > 0,
    ensures
        c.next(Event::Deliver { from, to, now }).vote_in_one_place(lock, x, p),
{
    let link = c.link(from, to);
    let msg = link[0];
    let b = c.with_link(from, to, link.remove(0));
    let m = c.nodes[to];
    let n = m.handle(now, from, msg);
    assert(c.sane_node(to));
    if !m.accepts(from, msg) || msg.lock != lock {
        lemma_place_remove(c, from, to, 0, lock, x, p);
        if msg.lock != lock {
            lemma_handle_other_lock(m, now, from, msg, lock);
        }
        lemma_place_frame(b, to, n, lock, x, p);
    } else if msg.kind.to_arbiter() {
        lemma_place_deliver_arbiter(c, from, to, now, lock, x, p);
    } else {
        lemma_place_deliver_requester(c, from, to, now, lock, x, p);
    }
}

/// A tick that finds no lapsed lease changes no vote and sends renewals and
/// repeated requests alone.
pub proof fn lemma_quiet_tick(n: NodeView, now: Instant, lock: Seq<char>)
    requires
        n.wf(),
        n.outbox.len() == 0,
        forall|l: Seq<char>| #[trigger]
            n.arbiter.map.contains_key(l) ==> !n.arbiter.map[l].lapsed(now),
    ensures
        n.tick(now).arbiter_of(lock).voted_for == n.arbiter_of(lock).voted_for,
        n.tick(now).arbiter_of(lock).inquired == n.arbiter_of(lock).inquired,
        n.tick(now).arbiter_of(lock).queue == n.arbiter_of(lock).queue,
        n.tick(now).arbiter_of(lock).fence_max == n.arbiter_of(lock).fence_max,
        n.arbiter_of(lock).voted_for is Some ==> n.tick(now).arbiter_of(lock).lease
            == n.arbiter_of(lock).lease,
        n.requester.get(lock) is None ==> n.tick(now).requester.get(lock) is None,
        n.requester.get(lock) matches Some(q) ==> n.tick(now).requester.get(lock) == Some(
            RequesterView { next_renew: n.tick(now).requester.map[lock].next_renew, ..q },
        ),
        forall|j: int|
            0 <= j < n.tick(now).outbox.len() ==> {
                let m = (#[trigger] n.tick(now).outbox[j]).msg;
                let to = n.tick(now).outbox[j].to;
                &&& n.requester.map.contains_key(m.lock)
                &&& m.req == n.requester.map[m.lock].req
                &&& m.kind is Renew && n.requester.map[m.lock].votes.contains(to) || m.kind
                    is Request && n.targets().contains(to)
            },
{
    let t = n.tick(now);
    assert(n.arbiter_of(lock).wf());
    if n.arbiter.map.contains_key(lock) {
        assert(!n.arbiter.map[lock].lapsed(now));
        if n.arbiter.map[lock].idle() {
            assert(!t.arbiter.map.contains_key(lock));
            assert(n.arbiter_of(lock).queue =~= Set::empty());
        }
    }
    let out = t.outbox;
    let a = concat_over(n.arbiter.keys, revoke_fn(n.arbiter, now));
    let b = concat_over(n.arbiter.keys, regrant_fn(n.arbiter, now));
    let e = concat_over(n.requester.keys, renew_fn(n.requester, now));
    let f = concat_over(n.requester.keys, rebroadcast_fn(n.requester, n.targets(), now));
    assert(a.len() == 0) by {
        if a.len() > 0 {
            let k = lemma_concat_elements(n.arbiter.keys, revoke_fn(n.arbiter, now), 0);
            assert(n.arbiter.map.contains_key(k));
        }
    }
    assert(b.len() == 0) by {
        if b.len() > 0 {
            let k = lemma_concat_elements(n.arbiter.keys, regrant_fn(n.arbiter, now), 0);
            assert(n.arbiter.map.contains_key(k));
        }
    }
    assert(out =~= e + f);
    assert forall|j: int| 0 <= j < out.len() implies {
        let m = (#[trigger] out[j]).msg;
        let to = out[j].to;
        &&& n.requester.map.contains_key(m.lock)
        &&& m.req == n.requester.map[m.lock].req
        &&& m.kind is Renew && n.requester.map[m.lock].votes.contains(to) || m.kind is Request
            && n.targets().contains(to)
    } by {
        if j < e.len() {
            let g = renew_fn(n.requester, now);
            let k = lemma_concat_elements(n.requester.keys, g, j);
            assert(n.requester.map.contains_key(k));
            let i = g(k).index_of(out[j]);
            assert(g(k)[i] == out[j]);
            assert(out[j].to == n.requester.map[k].votes[i]);
        } else {
            let g = rebroadcast_fn(n.requester, n.targets(), now);
            let k = lemma_concat_elements(n.requester.keys, g, j - e.len());
            assert(n.requester.map.contains_key(k));
            let i = g(k).index_of(out[j]);
            assert(g(k)[i] == out[j]);
            assert(out[j].to == n.targets()[i]);
        }
    }
}

/// What a tick does to the vote for `lock` and has sent about it: a lapsed vote
/// moves on to the next in line, who is told, and its former owner is told too.
/// Requests keep their votes.
pub proof fn lemma_tick_votes(n: NodeView, now: Instant, lock: Seq<char>, r: RequestId, t: NodeId)
    requires
        n.wf(),
        n.outbox.len() == 0,
    ensures
        ({
            let a = n.arbiter_of(lock);
            let b = n.tick(now).arbiter_of(lock);
            let sent = sent_to(n.tick(now).outbox, t);
            &&& a.lapsed(now) ==> b.voted_for == next_votee(a) && !b.inquired && (
            b.voted_for is Some ==> b == arbiter_grant_next(a, now)) && b.queue
                == arbiter_grant_next(a, now).queue
            &&& !a.lapsed(now) ==> b.voted_for == a.voted_for && b.inquired == a.inquired
                && b.queue == a.queue && (a.voted_for is Some ==> b.lease == a.lease)
            &&& count(sent, MessageKind::Grant, lock, r) == one_if(
                a.lapsed(now) && next_votee(a) == Some(r) && t == r.node,
            )
            &&& count(sent, MessageKind::Revoked, lock, r) == one_if(
                a.lapsed(now) && a.voted_for == Some(r) && t == r.node,
            )
            &&& count(sent, MessageKind::Inquire, lock, r) == 0
            &&& count(sent, MessageKind::Yield, lock, r) == 0
            &&& count(sent, MessageKind::Release, lock, r) == 0
            &&& n.requester.get(lock) is None ==> n.tick(now).requester.get(lock) is None
            &&& n.requester.get(lock) matches Some(q) ==> n.tick(now).requester.get(lock) == Some(
                RequesterView { next_renew: n.tick(now).requester.map[lock].next_renew, ..q },
            )
        }),
{
    let v = n.tick(now);
    let a = n.arbiter_of(lock);
    assert(a.wf());
    if n.arbiter.map.contains_key(lock) {
        if arbiter_after(a, now).idle() {
            assert(!v.arbiter.map.contains_key(lock));
            assert(a.queue =~= Set::empty());
        }
    }
    let f1 = revoke_fn(n.arbiter, now);
    let f2 = regrant_fn(n.arbiter, now);
    let f3 = renew_fn(n.requester, now);
    let f4 = rebroadcast_fn(n.requester, n.targets(), now);
    let o1 = concat_over(n.arbiter.keys, f1);
    let o2 = concat_over(n.arbiter.keys, f2);
    let o3 = concat_over(n.requester.keys, f3);
    let o4 = concat_over(n.requester.keys, f4);
    assert(v.outbox =~= o1 + o2 + o3 + o4);
    lemma_sent_append(o1, o2, t);
    lemma_sent_append(o1 + o2, o3, t);
    lemma_sent_append(o1 + o2 + o3, o4, t);
    assert forall|kind: MessageKind| #[trigger]
        count(sent_to(v.outbox, t), kind, lock, r) == (if n.arbiter.map.contains_key(lock) {
            count(sent_to(f1(lock), t), kind, lock, r) + count(sent_to(f2(lock), t), kind, lock, r)
        } else {
            0
        }) + (if n.requester.map.contains_key(lock) {
            count(sent_to(f3(lock), t), kind, lock, r) + count(sent_to(f4(lock), t), kind, lock, r)
        } else {
            0
        }) by {
        lemma_concat_count(n.arbiter.keys, f1, t, kind, lock, r);
        lemma_concat_count(n.arbiter.keys, f2, t, kind, lock, r);
        lemma_concat_count(n.requester.keys, f3, t, kind, lock, r);
        lemma_concat_count(n.requester.keys, f4, t, kind, lock, r);
        let s1 = sent_to(o1, t);
        let s2 = sent_to(o2, t);
        let s3 = sent_to(o3, t);
        let s4 = sent_to(o4, t);
        lemma_count_append(s1, s2, kind, lock, r);
        lemma_count_append(s1 + s2, s3, kind, lock, r);
        lemma_count_append(s1 + s2 + s3, s4, kind, lock, r);
        assert(n.arbiter.keys.contains(lock) <==> n.arbiter.map.contains_key(lock));
        assert(n.requester.keys.contains(lock) <==> n.requester.map.contains_key(lock));
    }
    assert forall|kind: MessageKind| !(kind is Renew) && !(kind is Request) implies #[trigger] count(
        sent_to(f3(lock), t),
        kind,
        lock,
        r,
    ) == 0 && count(sent_to(f4(lock), t), kind, lock, r) == 0 by {
        lemma_sent_none(f3(lock), t, kind, lock, r);
        lemma_sent_none(f4(lock), t, kind, lock, r);
    }
    lemma_count_none(lock, r);
    assert(sent_to(Seq::empty(), t) =~= Seq::empty());
    if n.arbiter.map.contains_key(lock) && a.lapsed(now) {
        let w = a.voted_for->0;
        let o = send_to(w.node, plain_message(MessageKind::Revoked, lock, w));
        assert(f1(lock) == seq![o]);
        lemma_sent_one(o, t);
        lemma_count_one(o.msg, lock, r);
        if let Some(y) = next_votee(a) {
            let g = grant_message(lock, y, a.fence_max);
            assert(f2(lock) == seq![g]);
            lemma_sent_one(g, t);
            lemma_count_one(g.msg, lock, r);
        }
    }
}

/// What a tick sends: renewals to voters and repeated requests to arbiters, for
/// the node's own requests, and besides those revocations and grants alone.
pub proof fn lemma_tick_asks(n: NodeView, now: Instant, j: int)
    requires
        n.wf(),
        n.outbox.len() == 0,
        0 <= j < n.tick(now).outbox.len(),
    ensures
        ({
            let m = n.tick(now).outbox[j].msg;
            let to = n.tick(now).outbox[j].to;
            ||| m.kind is Revoked
            ||| m.kind is Grant
            ||| n.requester.map.contains_key(m.lock) && m.req == n.requester.map[m.lock].req && (
            m.kind is Renew && n.requester.map[m.lock].votes.contains(to) || m.kind is Request
                && n.targets().contains(to))
        }),
{
    let out = n.tick(now).outbox;
    let f1 = revoke_fn(n.arbiter, now);
    let f2 = regrant_fn(n.arbiter, now);
    let f3 = renew_fn(n.requester, now);
    let f4 = rebroadcast_fn(n.requester, n.targets(), now);
    let o1 = concat_over(n.arbiter.keys, f1);
    let o2 = concat_over(n.arbiter.keys, f2);
    let o3 = concat_over(n.requester.keys, f3);
    let o4 = concat_over(n.requester.keys, f4);
    assert(out =~= o1 + o2 + o3 + o4);
    if j < o1.len() {
        let k = lemma_concat_elements(n.arbiter.keys, f1, j);
        assert(f1(k)[f1(k).index_of(out[j])] == out[j]);
    } else if j < o1.len() + o2.len() {
        let k = lemma_concat_elements(n.arbiter.keys, f2, j - o1.len());
        assert(f2(k)[f2(k).index_of(out[j])] == out[j]);
    } else if j < o1.len() + o2.len() + o3.len() {
        let k = lemma_concat_elements(n.requester.keys, f3, j - o1.len() - o2.len());
        let i = f3(k).index_of(out[j]);
        assert(f3(k)[i] == out[j]);
        assert(n.requester.map.contains_key(k));
        assert(out[j].to == n.requester.map[k].votes[i]);
    } else {
        let k = lemma_concat_elements(n.requester.keys, f4, j - o1.len() - o2.len() - o3.len());
        let i = f4(k).index_of(out[j]);
        assert(f4(k)[i] == out[j]);
        assert(n.requester.map.contains_key(k));
        assert(out[j].to == n.targets()[i]);
    }
}

/// A tick that finds no lapsed lease on a vote for `p` keeps votes in one place.
proof fn lemma_place_tick(
    c: ClusterView,
    node: NodeId,
    now: Instant,
    lock: Seq<char>,
    x: NodeId,
    p: NodeId,
    live: Set<NodeId>,
)
    requires
        c.sane(),
        c.members.contains(node),
        c.members.contains(p),
        live.contains(p),
        c.vote_in_one_place(lock, x, p),
        c.spares(Event::Tick { node, now }, live),
    ensures
        c.next(Event::Tick { node, now }).vote_in_one_place(lock, x, p),
{
    let m = c.nodes[node];
    let n = m.tick(now);
    let d = c.flushed(node, n);
    assert(c.sane_node(node));
    assert(c.sane_node(p));
    if let Some(q) = d.requester(p, lock) {
        let r = q.req;
        lemma_tick_votes(m, now, lock, r, p);
        lemma_tick_votes(m, now, lock, r, x);
        assert(c.requester(p, lock) is Some);
        assert(c.requester(p, lock)->0.req == r);
        assert(r.node == p);
        lemma_flushed_count(c, node, n, x, p, MessageKind::Grant, lock, r);
        lemma_flushed_count(c, node, n, x, p, MessageKind::Inquire, lock, r);
        lemma_flushed_count(c, node, n, p, x, MessageKind::Yield, lock, r);
        lemma_flushed_count(c, node, n, p, x, MessageKind::Release, lock, r);
        if x == node {
            let sent = sent_to(n.outbox, p);
            assert(grants_first(sent, lock, r)) by {
                lemma_count_zero(sent, MessageKind::Inquire, lock, r);
            }
            lemma_grants_first_append(c.link(x, p), sent, lock, r);
        }
    }
}

/// Every event that finds no lapsed lease on a vote for a `live` node keeps their
/// votes in one place.
pub proof fn lemma_votes_next(c: ClusterView, e: Event, live: Set<NodeId>)
    requires
        c.sane(),
        c.votes_in_one_place(live),
        c.spares(e, live),
    ensures
        c.next(e).votes_in_one_place(live),
{
    let d = c.next(e);
    lemma_sane_next(c, e);
    assert forall|lock: Seq<char>, x: NodeId, p: NodeId|
        d.members.contains(x) && d.members.contains(p) && live.contains(p) implies #[trigger]
        d.vote_in_one_place(lock, x, p) by {
        assert(c.vote_in_one_place(lock, x, p));
        match e {
            Event::Request { node, now, lock: l } => {
                if c.members.contains(node) && c.nodes[node].lamport < u64::MAX {
                    let m = c.nodes[node];
                    let n = m.request(now, l);
                    assert(c.sane_node(node));
                    if p == node && l == lock && !m.requester.map.contains_key(l) {
                        lemma_place_fresh(c, node, now, lock, x);
                    } else {
                        lemma_place_frame(c, node, n, lock, x, p);
                    }
                }
            },
            Event::Release { node, lock: l } => {
                if c.members.contains(node) {
                    let m = c.nodes[node];
                    let n = m.release(l);
                    assert(c.sane_node(node));
                    if p == node && l == lock {
                        assert(d.requester(p, lock) is None);
                    } else {
                        if let Some(q) = c.requester(p, lock) {
                            assert(c.sane_node(p));
                            assert(q.req.node == p);
                        }
                        lemma_place_frame(c, node, n, lock, x, p);
                    }
                }
            },
            Event::Deliver { from, to, now } => {
                if c.members.contains(to) && c.link(from, to).len() > 0 {
                    assert(c.vote_in_one_place(lock, to, p));
                    lemma_place_deliver(c, from, to, now, lock, x, p);
                }
            },
            Event::Lose { from, to, index } => {
                if 0 <= index < c.link(from, to).len() {
                    lemma_place_remove(c, from, to, index, lock, x, p);
                }
            },
            Event::Tick { node, now } => {
                if c.members.contains(node) {
                    lemma_place_tick(c, node, now, lock, x, p, live);
                }
            },
        }
    }
}

/// A new request has no votes anywhere.
proof fn lemma_place_fresh(c: ClusterView, p: NodeId, now: Instant, lock: Seq<char>, x: NodeId)
    requires
        c.sane(),
        c.members.contains(p),
        c.members.contains(x),
        c.nodes[p].lamport < u64::MAX,
        !c.nodes[p].requester.map.contains_key(lock),
    ensures
        c.flushed(p, c.nodes[p].request(now, lock)).vote_in_one_place(lock, x, p),
{
    let m = c.nodes[p];
    let n = m.request(now, lock);
    let r = m.next_request();
    let d = c.flushed(p, n);
    assert(c.sane_node(p));
    assert(c.sane_node(x));
    assert(!c.made(r));
    lemma_unmade(c, x, p, lock, r);
    assert(moves_no_vote(n.outbox, lock, r));
    lemma_flushed_count(c, p, n, x, p, MessageKind::Grant, lock, r);
    lemma_flushed_count(c, p, n, x, p, MessageKind::Inquire, lock, r);
    lemma_flushed_count(c, p, n, p, x, MessageKind::Yield, lock, r);
    lemma_flushed_count(c, p, n, p, x, MessageKind::Release, lock, r);
    lemma_sent_none(n.outbox, p, MessageKind::Grant, lock, r);
    lemma_sent_none(n.outbox, p, MessageKind::Inquire, lock, r);
    lemma_sent_none(n.outbox, x, MessageKind::Yield, lock, r);
    lemma_sent_none(n.outbox, x, MessageKind::Release, lock, r);
    assert(grants_first(c.link(x, p), lock, r)) by {
        lemma_count_zero(c.link(x, p), MessageKind::Inquire, lock, r);
    }
    if x == p {
        lemma_grants_first_append(c.link(x, p), sent_to(n.outbox, p), lock, r);
    }
    assert(d.requester(p, lock)->0.req == r);
    assert(!d.requester(p, lock)->0.votes.contains(x));
}

/// Nothing under way and no arbiter speaks of a request that was not made.
pub proof fn lemma_unmade(c: ClusterView, x: NodeId, p: NodeId, lock: Seq<char>, r: RequestId)
    requires
        c.sane(),
        c.members.contains(x),
        !c.made(r),
    ensures
        forall|kind: MessageKind| #[trigger] count(c.link(x, p), kind, lock, r) == 0,
        forall|kind: MessageKind| #[trigger] count(c.link(p, x), kind, lock, r) == 0,
        c.arbiter(x, lock).voted_for != Some(r),
        !c.arbiter(x, lock).queue.contains(r),
{
    assert(c.sane_link(x, p));
    assert(c.sane_link(p, x));
    assert(c.sane_node(x));
    assert forall|kind: MessageKind| #[trigger] count(c.link(x, p), kind, lock, r) == 0 by {
        lemma_count_zero(c.link(x, p), kind, lock, r);
    }
    assert forall|kind: MessageKind| #[trigger] count(c.link(p, x), kind, lock, r) == 0 by {
        lemma_count_zero(c.link(p, x), kind, lock, r);
    }
    if c.nodes[x].arbiter.map.contains_key(lock) {
        let a = c.nodes[x].arbiter.map[lock];
        if a.voted_for == Some(r) {
            assert(c.made_fn()(r));
        }
        if a.queue.contains(r) {
            assert(c.made_fn()(r));
        }
    }
}

/// Votes are in one place in every cluster that events without a lapsed lease
/// lead to.
pub proof fn lemma_votes_after(
    policy: QuorumPolicy,
    members: Seq<NodeId>,
    events: Seq<Event>,
    live: Set<NodeId>,
)
    requires
        members.no_duplicates(),
        spares(policy, members, events, live),
    ensures
        after(policy, members, events).votes_in_one_place(live),
    decreases events.len(),
{
    if events.len() == 0 {
        let c = ClusterView::start(policy, members);
        assert forall|lock: Seq<char>, x: NodeId, p: NodeId|
            c.members.contains(x) && c.members.contains(p) implies #[trigger] c.vote_in_one_place(
            lock,
            x,
            p,
        ) by {
            assert(c.requester(p, lock) is None);
        }
    } else {
        let init = events.drop_last();
        lemma_votes_after(policy, members, init, live);
        lemma_sane_after(policy, members, init);
        lemma_votes_next(after(policy, members, init), events.last(), live);
    }
}

/// **Mutual exclusion.** Whatever nodes request and release, in whatever order
/// messages arrive on different links, however long they take, and whichever
/// are lost: as long as no lease lapses, no two nodes hold a lock at once.
pub proof fn law_mutual_exclusion(
    policy: QuorumPolicy,
    members: Seq<NodeId>,
    events: Seq<Event>,
    lock: Seq<char>,
    p: NodeId,
    q: NodeId,
)
    requires
        members.no_duplicates(),
        leases_hold(policy, members, events),
        after(policy, members, events).holds(p, lock),
        after(policy, members, events).holds(q, lock),
    ensures
        p == q,
{
    lemma_leases_spare(policy, members, events, Set::full());
    law_survivors_exclude_each_other(policy, members, events, Set::full(), lock, p, q);
}

/// **Mutual exclusion among survivors.** Nodes may crash or be cut off, so that
/// their leases lapse and their votes are given away: no two of the `live` nodes,
/// those whose leases do not lapse, hold a lock at once.
pub proof fn law_survivors_exclude_each_other(
    policy: QuorumPolicy,
    members: Seq<NodeId>,
    events: Seq<Event>,
    live: Set<NodeId>,
    lock: Seq<char>,
    p: NodeId,
    q: NodeId,
)
    requires
        members.no_duplicates(),
        spares(policy, members, events, live),
        live.contains(p),
        live.contains(q),
        after(policy, members, events).holds(p, lock),
        after(policy, members, events).holds(q, lock),
    ensures
        p == q,
{
    let c = after(policy, members, events);
    lemma_sane_after(policy, members, events);
    lemma_votes_after(policy, members, events, live);
    lemma_one_holder(c, live, lock, p, q);
}

/// While votes are in one place, a lock has one holder.
pub proof fn lemma_one_holder(
    c: ClusterView,
    live: Set<NodeId>,
    lock: Seq<char>,
    p: NodeId,
    q: NodeId,
)
    requires
        c.sane(),
        c.votes_in_one_place(live),
        live.contains(p),
        live.contains(q),
        c.holds(p, lock),
        c.holds(q, lock),
    ensures
        p == q,
{
    assert(c.sane_node(p));
    assert(c.sane_node(q));
    let s = c.nodes[p].requester.map[lock];
    let t = c.nodes[q].requester.map[lock];
    assert(is_quorum(c.policy, p, c.members, s.votes));
    assert(is_quorum(c.policy, q, c.members, t.votes));
    let x = law_quorums_intersect(c.policy, c.members, p, s.votes, q, t.votes);
    lemma_voter_is_member(c, lock, p, x);
    assert(c.vote_in_one_place(lock, x, p));
    assert(c.vote_in_one_place(lock, x, q));
}

/// Votes come from members.
pub proof fn lemma_voter_is_member(c: ClusterView, lock: Seq<char>, p: NodeId, x: NodeId)
    requires
        c.sane(),
        c.members.contains(p),
        c.requester(p, lock) is Some,
        c.requester(p, lock)->0.votes.contains(x),
    ensures
        c.members.contains(x),
{
    assert(c.sane_node(p));
    lemma_targets_are_members(c.policy, p, c.members);
}

/// A node asks members alone.
pub proof fn lemma_targets_are_members(policy: QuorumPolicy, id: NodeId, members: Seq<NodeId>)
    requires
        valid_members(id, members),
    ensures
        forall|x: NodeId| #[trigger]
            quorum_targets(policy, id, members).contains(x) ==> members.contains(x),
{
    crate::quorum::lemma_grid_members(id, members);
}

} // verus!
