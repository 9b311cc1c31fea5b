//! Deadlock freedom: a cluster at rest with a pending request has a holder.
//!
//! Every pending request waits at each of its arbiters, has the arbiter's vote,
//! or is on its way there. An arbiter that has a smaller request waiting has
//! asked its votee to yield. So at rest, with no holder, the smallest pending
//! request has every vote it asked for, and holds the lock.
//!
//! All this is followed for a set of live nodes: the others may crash or be cut off,
//! and their votes be given away, without the live nodes waiting for each other in
//! vain.
use vstd::prelude::*;

use crate::cluster::{
    after, count, is_about, leases_hold, lemma_count_append, lemma_count_positive,
    lemma_count_remove, lemma_count_zero, lemma_leases_spare, lemma_sane_after, lemma_sane_next,
    lemma_sent_none, lemma_sent_one, lemma_sent_to, lemma_sent_to_complete, lossless,
    lossless_among, sent_to, spares, ClusterView, Event,
};
use crate::exclusion::{
    lemma_handle_other_lock, lemma_targets_are_members, lemma_tick_asks, lemma_tick_votes,
    lemma_unmade, lemma_votes_after, one_if,
};
use crate::model::{
    arbiter_grant_next, arbiter_released, arbiter_yielded, lemma_filter_no_duplicates,
    lemma_smallest, lemma_threshold_positive, lemma_vote_added, lemma_vote_removed, send_all,
    send_to, ArbiterView, NodeView,
};
use crate::quorum::{quorum_targets, quorum_threshold, valid_members, QuorumPolicy};
use crate::types::{Instant, MessageKind, MessageView, NodeId, OutgoingView, RequestId};

verus! {

/// A release of `r` is behind position `i`.
pub open spec fn released_behind(s: Seq<MessageView>, i: int, lock: Seq<char>, r: RequestId) -> bool {
    exists|j: int|
        i < j < s.len() && is_about(#[trigger] s[j], MessageKind::Release, lock, r)
}

/// The vote requests on a link from `p` are its own, go to one of its arbiters,
/// and are for its current request or followed by the release.
pub open spec fn requests_backed(
    s: Seq<MessageView>,
    lock: Seq<char>,
    p: NodeId,
    asked: bool,
    current: Option<RequestId>,
) -> bool {
    forall|i: int|
        0 <= i < s.len() && (#[trigger] s[i]).kind is Request && s[i].lock == lock ==> {
            &&& s[i].req.node == p
            &&& asked
            &&& current == Some(s[i].req) || released_behind(s, i, lock, s[i].req)
        }
}

/// A renewal of `r` finds the vote: the arbiter has voted for `r`, and no yield
/// is ahead of the renewal.
pub open spec fn renewals_find_vote(
    s: Seq<MessageView>,
    lock: Seq<char>,
    r: RequestId,
    voted: bool,
) -> bool {
    forall|i: int|
        0 <= i < s.len() && is_about(#[trigger] s[i], MessageKind::Renew, lock, r) ==> voted && (
        forall|j: int|
            0 <= j < i ==> !is_about(#[trigger] s[j], MessageKind::Yield, lock, r))
}

impl ClusterView {
    /// The request of node `p` for `lock`.
    pub open spec fn current(self, p: NodeId, lock: Seq<char>) -> Option<RequestId> {
        self.nodes[p].request_of(lock)
    }

    /// Whether `p` asks `x` for its vote.
    pub open spec fn asks(self, p: NodeId, x: NodeId) -> bool {
        quorum_targets(self.policy, p, self.members).contains(x)
    }

    /// Arbiter `x` has voted for `s`, or has it waiting.
    pub open spec fn known_at(self, x: NodeId, lock: Seq<char>, s: RequestId) -> bool {
        let a = self.arbiter(x, lock);
        a.voted_for == Some(s) || a.queue.contains(s)
    }

    /// The vote of arbiter `x` for the current request of `p` is not taken away,
    /// and if what the two send each other is `heard`, they do not wait for each
    /// other in vain.
    pub open spec fn waits_well(self, lock: Seq<char>, x: NodeId, p: NodeId, heard: bool) -> bool {
        let a = self.arbiter(x, lock);
        let there = self.link(x, p);
        let back = self.link(p, x);
        &&& heard ==> {
            // a current request is known to the arbiter, or on its way
            &&& self.current(p, lock) matches Some(r) ==> (self.asks(p, x) ==> count(
                back,
                MessageKind::Request,
                lock,
                r,
            ) > 0 || a.voted_for == Some(r) || a.queue.contains(r))
            // what the arbiter knows of is current, or the release is on its way
            &&& forall|s: RequestId|
                s.node == p && #[trigger] self.known_at(x, lock, s) ==> self.asks(p, x) && (
                self.current(p, lock) == Some(s) || count(back, MessageKind::Release, lock, s)
                    > 0)
            &&& requests_backed(back, lock, p, self.asks(p, x), self.current(p, lock))
            // a votee that was asked to yield will answer, or holds the lock
            &&& a.voted_for matches Some(v) ==> (v.node == p && a.inquired ==> {
                ||| count(there, MessageKind::Inquire, lock, v) > 0
                ||| count(back, MessageKind::Yield, lock, v) > 0
                ||| count(back, MessageKind::Release, lock, v) > 0
                ||| self.current(p, lock) == Some(v) && self.nodes[p].requester.map[lock].locked
            })
            // a vote for a current request is counted, or under way
            &&& self.requester(p, lock) matches Some(q) ==> (a.voted_for == Some(q.req) ==> {
                ||| count(there, MessageKind::Grant, lock, q.req) > 0
                ||| q.votes.contains(x)
                ||| count(back, MessageKind::Yield, lock, q.req) > 0
            })
        }
        // no vote for a current request is revoked
        &&& self.requester(p, lock) matches Some(q) ==> {
            &&& count(there, MessageKind::Revoked, lock, q.req) == 0
            &&& renewals_find_vote(back, lock, q.req, a.voted_for == Some(q.req))
        }
    }

    /// An arbiter with a request waiting that is smaller than the votee's has
    /// asked the votee to yield.
    pub open spec fn preempts(self, lock: Seq<char>, x: NodeId) -> bool {
        let a = self.arbiter(x, lock);
        a.voted_for matches Some(v) ==> forall|m: RequestId| #[trigger]
            a.queue.contains(m) && m.precedes(v) ==> a.inquired
    }

    /// None of the `live` nodes waits for another in vain, and no vote is taken
    /// away from them.
    pub open spec fn all_wait_well(self, live: Set<NodeId>) -> bool {
        &&& forall|lock: Seq<char>, x: NodeId, p: NodeId|
            self.members.contains(x) && self.members.contains(p) && live.contains(p)
                ==> #[trigger] self.waits_well(lock, x, p, live.contains(x))
        &&& forall|lock: Seq<char>, x: NodeId|
            self.members.contains(x) ==> #[trigger] self.preempts(lock, x)
    }

    /// Nothing is under way between two `live` nodes.
    pub open spec fn at_rest(self, live: Set<NodeId>) -> bool {
        forall|s: NodeId, t: NodeId|
            self.members.contains(s) && self.members.contains(t) && live.contains(s)
                && live.contains(t) ==> (#[trigger] self.link(s, t)).len() == 0
    }
}

// ---- links ------------------------------------------------------------------------
/// Taking the head off a link.
proof fn lemma_tail(s: Seq<MessageView>, lock: Seq<char>, p: NodeId)
    requires
        s.len() > 0,
    ensures
        forall|asked: bool, current: Option<RequestId>|
            requests_backed(s, lock, p, asked, current) ==> #[trigger] requests_backed(
                s.remove(0),
                lock,
                p,
                asked,
                current,
            ),
        forall|r: RequestId, voted: bool|
            renewals_find_vote(s, lock, r, voted) ==> #[trigger] renewals_find_vote(
                s.remove(0),
                lock,
                r,
                voted,
            ),
        forall|kind: MessageKind, r: RequestId|
            count(s, kind, lock, r) == #[trigger] count(s.remove(0), kind, lock, r) + one_if(
                is_about(s[0], kind, lock, r),
            ),
{
    let t = s.remove(0);
    assert forall|asked: bool, current: Option<RequestId>|
        requests_backed(s, lock, p, asked, current) implies #[trigger] requests_backed(
        t,
        lock,
        p,
        asked,
        current,
    ) by {
        assert forall|i: int|
            0 <= i < t.len() && (#[trigger] t[i]).kind is Request && t[i].lock == lock implies {
            &&& t[i].req.node == p
            &&& asked
            &&& current == Some(t[i].req) || released_behind(t, i, lock, t[i].req)
        } by {
            assert(t[i] == s[i + 1]);
            if released_behind(s, i + 1, lock, t[i].req) {
                let j = choose|j: int|
                    i + 1 < j < s.len() && is_about(
                        #[trigger] s[j],
                        MessageKind::Release,
                        lock,
                        t[i].req,
                    );
                assert(t[j - 1] == s[j]);
            }
        }
    }
    assert forall|r: RequestId, voted: bool|
        renewals_find_vote(s, lock, r, voted) implies #[trigger] renewals_find_vote(
        t,
        lock,
        r,
        voted,
    ) by {
        assert forall|i: int|
            0 <= i < t.len() && is_about(#[trigger] t[i], MessageKind::Renew, lock, r) implies voted
            && (forall|j: int|
            0 <= j < i ==> !is_about(#[trigger] t[j], MessageKind::Yield, lock, r)) by {
            assert(t[i] == s[i + 1]);
            assert forall|j: int| 0 <= j < i implies !is_about(
                #[trigger] t[j],
                MessageKind::Yield,
                lock,
                r,
            ) by {
                assert(t[j] == s[j + 1]);
            }
        }
    }
    assert forall|kind: MessageKind, r: RequestId|
        count(s, kind, lock, r) == #[trigger] count(t, kind, lock, r) + one_if(
            is_about(s[0], kind, lock, r),
        ) by {
        lemma_count_remove(s, 0, kind, lock, r);
    }
}

/// Appending to a link messages that are neither requests nor renewals for the
/// lock.
proof fn lemma_append(s: Seq<MessageView>, t: Seq<MessageView>, lock: Seq<char>, p: NodeId)
    ensures
        forall|kind: MessageKind, r: RequestId| #[trigger]
            count(s + t, kind, lock, r) == count(s, kind, lock, r) + count(t, kind, lock, r),
        (forall|i: int|
            0 <= i < t.len() && (#[trigger] t[i]).lock == lock ==> !(t[i].kind is Request))
            ==> forall|asked: bool, current: Option<RequestId>|
            requests_backed(s, lock, p, asked, current) ==> #[trigger] requests_backed(
                s + t,
                lock,
                p,
                asked,
                current,
            ),
        (forall|i: int|
            0 <= i < t.len() && (#[trigger] t[i]).lock == lock ==> !(t[i].kind is Renew))
            ==> forall|r: RequestId, voted: bool|
            renewals_find_vote(s, lock, r, voted) ==> #[trigger] renewals_find_vote(
                s + t,
                lock,
                r,
                voted,
            ),
{
    let u = s + t;
    assert forall|kind: MessageKind, r: RequestId| #[trigger]
        count(u, kind, lock, r) == count(s, kind, lock, r) + count(t, kind, lock, r) by {
        lemma_count_append(s, t, kind, lock, r);
    }
    if forall|i: int|
        0 <= i < t.len() && (#[trigger] t[i]).lock == lock ==> !(t[i].kind is Request) {
        assert forall|asked: bool, current: Option<RequestId>|
            requests_backed(s, lock, p, asked, current) implies #[trigger] requests_backed(
            u,
            lock,
            p,
            asked,
            current,
        ) by {
            assert forall|i: int|
                0 <= i < u.len() && (#[trigger] u[i]).kind is Request && u[i].lock
                    == lock implies {
                &&& u[i].req.node == p
                &&& asked
                &&& current == Some(u[i].req) || released_behind(u, i, lock, u[i].req)
            } by {
                if i >= s.len() {
                    assert(u[i] == t[i - s.len()]);
                } else {
                    assert(u[i] == s[i]);
                    lemma_behind_append(s, t, i, lock, s[i].req);
                }
            }
        }
    }
    if forall|i: int|
        0 <= i < t.len() && (#[trigger] t[i]).lock == lock ==> !(t[i].kind is Renew) {
        assert forall|r: RequestId, voted: bool|
            renewals_find_vote(s, lock, r, voted) implies #[trigger] renewals_find_vote(
            u,
            lock,
            r,
            voted,
        ) by {
            assert forall|i: int|
                0 <= i < u.len() && is_about(
                    #[trigger] u[i],
                    MessageKind::Renew,
                    lock,
                    r,
                ) implies voted && (forall|j: int|
                0 <= j < i ==> !is_about(#[trigger] u[j], MessageKind::Yield, lock, r)) by {
                if i >= s.len() {
                    assert(u[i] == t[i - s.len()]);
                } else {
                    assert(u[i] == s[i]);
                    assert forall|j: int| 0 <= j < i implies !is_about(
                        #[trigger] u[j],
                        MessageKind::Yield,
                        lock,
                        r,
                    ) by {
                        assert(u[j] == s[j]);
                    }
                }
            }
        }
    }
}

/// What is behind a message stays behind it.
proof fn lemma_behind_append(
    s: Seq<MessageView>,
    t: Seq<MessageView>,
    i: int,
    lock: Seq<char>,
    r: RequestId,
)
    requires
        0 <= i < s.len(),
    ensures
        released_behind(s, i, lock, r) ==> released_behind(s + t, i, lock, r),
        count(t, MessageKind::Release, lock, r) > 0 ==> released_behind(s + t, i, lock, r),
{
    let u = s + t;
    if released_behind(s, i, lock, r) {
        let j = choose|j: int|
            i < j < s.len() && is_about(#[trigger] s[j], MessageKind::Release, lock, r);
        assert(u[j] == s[j]);
    }
    if count(t, MessageKind::Release, lock, r) > 0 {
        lemma_count_zero(t, MessageKind::Release, lock, r);
        let j = choose|j: int|
            0 <= j < t.len() && is_about(#[trigger] t[j], MessageKind::Release, lock, r);
        assert(u[s.len() + j] == t[j]);
    }
}

/// A release behind the head is still there when the head is gone.
proof fn lemma_behind_head(s: Seq<MessageView>, lock: Seq<char>, r: RequestId)
    requires
        s.len() > 0,
        released_behind(s, 0, lock, r),
    ensures
        count(s.remove(0), MessageKind::Release, lock, r) > 0,
{
    let j = choose|j: int|
        0 < j < s.len() && is_about(#[trigger] s[j], MessageKind::Release, lock, r);
    assert(s.remove(0)[j - 1] == s[j]);
    lemma_count_positive(s.remove(0), j - 1, MessageKind::Release, lock, r);
}

/// Sending the same message to many sends it to each of them.
proof fn lemma_sent_all(to: Seq<NodeId>, msg: MessageView, x: NodeId)
    requires
        to.contains(x),
    ensures
        count(sent_to(send_all(to, msg), x), msg.kind, msg.lock, msg.req) > 0,
{
    let out = send_all(to, msg);
    let j = to.index_of(x);
    assert(out[j] == send_to(x, msg));
    lemma_sent_to_complete(out, j);
    let s = sent_to(out, x);
    lemma_count_positive(s, s.index_of(msg), msg.kind, msg.lock, msg.req);
}

/// `out` has neither requests nor renewals for the lock.
pub open spec fn asks_nothing(out: Seq<OutgoingView>, lock: Seq<char>) -> bool {
    forall|j: int|
        0 <= j < out.len() && (#[trigger] out[j]).msg.lock == lock ==> !(out[j].msg.kind
            is Request) && !(out[j].msg.kind is Renew)
}

/// What a step does to a link.
proof fn lemma_step_link(
    c: ClusterView,
    a: NodeId,
    n: NodeView,
    lock: Seq<char>,
    s: NodeId,
    t: NodeId,
)
    ensures
        forall|kind: MessageKind, r: RequestId| #[trigger]
            count(c.flushed(a, n).link(s, t), kind, lock, r) == count(c.link(s, t), kind, lock, r)
                + if s == a {
                count(sent_to(n.outbox, t), kind, lock, r)
            } else {
                0
            },
        s != a || asks_nothing(n.outbox, lock) ==> forall|
            asked: bool,
            current: Option<RequestId>,
        |
            requests_backed(c.link(s, t), lock, s, asked, current) ==> #[trigger] requests_backed(
                c.flushed(a, n).link(s, t),
                lock,
                s,
                asked,
                current,
            ),
        s != a || asks_nothing(n.outbox, lock) ==> forall|r: RequestId, voted: bool|
            renewals_find_vote(c.link(s, t), lock, r, voted) ==> #[trigger] renewals_find_vote(
                c.flushed(a, n).link(s, t),
                lock,
                r,
                voted,
            ),
{
    if s == a {
        let sent = sent_to(n.outbox, t);
        lemma_append(c.link(s, t), sent, lock, s);
        if asks_nothing(n.outbox, lock) {
            assert forall|i: int|
                0 <= i < sent.len() && (#[trigger] sent[i]).lock == lock implies !(sent[i].kind
                is Request) && !(sent[i].kind is Renew) by {
                let j = lemma_sent_to(n.outbox, t, i);
                assert(n.outbox[j].msg == sent[i]);
            }
        }
    }
}

/// What taking a message off link `(from, to)` does to link `(s, t)`.
proof fn lemma_pop_link(
    c: ClusterView,
    from: NodeId,
    to: NodeId,
    lock: Seq<char>,
    s: NodeId,
    t: NodeId,
)
    requires
        c.link(from, to).len() > 0,
    ensures
        ({
            let d = c.with_link(from, to, c.link(from, to).remove(0));
            &&& forall|kind: MessageKind, r: RequestId| #[trigger]
                count(d.link(s, t), kind, lock, r) + one_if(
                    s == from && t == to && is_about(c.link(from, to)[0], kind, lock, r),
                ) == count(c.link(s, t), kind, lock, r)
            &&& forall|asked: bool, current: Option<RequestId>|
                requests_backed(c.link(s, t), lock, s, asked, current)
                    ==> #[trigger] requests_backed(d.link(s, t), lock, s, asked, current)
            &&& forall|r: RequestId, voted: bool|
                renewals_find_vote(c.link(s, t), lock, r, voted)
                    ==> #[trigger] renewals_find_vote(d.link(s, t), lock, r, voted)
        }),
{
    if s == from && t == to {
        lemma_tail(c.link(s, t), lock, s);
    }
}

/// Counting what one message adds to a link.
proof fn lemma_sent_one_counts(o: OutgoingView, t: NodeId, lock: Seq<char>)
    ensures
        forall|kind: MessageKind, r: RequestId| #[trigger]
            count(sent_to(seq![o], t), kind, lock, r) == one_if(
                o.to == t && is_about(o.msg, kind, lock, r),
            ),
{
    lemma_sent_one(o, t);
    assert forall|kind: MessageKind, r: RequestId| #[trigger]
        count(sent_to(seq![o], t), kind, lock, r) == one_if(
            o.to == t && is_about(o.msg, kind, lock, r),
        ) by {
        if o.to == t {
            assert(seq![o.msg].drop_last() =~= Seq::empty());
            assert(seq![o.msg].last() == o.msg);
            assert(count(seq![o.msg].drop_last(), kind, lock, r) == 0);
        }
    }
}

/// A step that leaves the two as they are, but for locking and more votes.
proof fn lemma_waits_frame(
    c: ClusterView,
    a: NodeId,
    n: NodeView,
    lock: Seq<char>,
    x: NodeId,
    p: NodeId,
    heard: bool,
)
    requires
        c.waits_well(lock, x, p, heard),
        x == a ==> {
            let before = c.arbiter(a, lock);
            let now = n.arbiter_of(lock);
            now.voted_for == before.voted_for && now.queue == before.queue && now.inquired
                == before.inquired
        },
        p == a ==> n.request_of(lock) == c.current(p, lock),
        p == a ==> (c.requester(p, lock) matches Some(q) ==> {
            &&& q.locked ==> n.requester.map[lock].locked
            &&& q.votes.contains(x) ==> n.requester.map[lock].votes.contains(x)
        }),
        p == a ==> asks_nothing(n.outbox, lock),
        x == a ==> (c.requester(p, lock) matches Some(q) ==> forall|j: int|
            0 <= j < n.outbox.len() ==> !is_about(
                (#[trigger] n.outbox[j]).msg,
                MessageKind::Revoked,
                lock,
                q.req,
            )),
    ensures
        c.flushed(a, n).waits_well(lock, x, p, heard),
{
    let d = c.flushed(a, n);
    lemma_step_link(c, a, n, lock, x, p);
    lemma_step_link(c, a, n, lock, p, x);
    assert(d.current(p, lock) == c.current(p, lock));
    assert(d.arbiter(x, lock).voted_for == c.arbiter(x, lock).voted_for);
    assert(d.arbiter(x, lock).queue == c.arbiter(x, lock).queue);
    assert forall|s: RequestId| #[trigger] d.known_at(x, lock, s) implies c.known_at(
        x,
        lock,
        s,
    ) by {}
    if x == a {
        if let Some(q) = c.requester(p, lock) {
            lemma_sent_none(n.outbox, p, MessageKind::Revoked, lock, q.req);
        }
    }
}

/// Taking a message off a link, if it is none that the two wait for.
proof fn lemma_waits_pop(
    c: ClusterView,
    from: NodeId,
    to: NodeId,
    lock: Seq<char>,
    x: NodeId,
    p: NodeId,
    heard: bool,
)
    requires
        c.waits_well(lock, x, p, heard),
        c.link(from, to).len() > 0,
        heard ==> ({
            let h = c.link(from, to)[0];
            &&& !(from == p && to == x && h.lock == lock && (h.kind is Request || h.kind is Release
                || h.kind is Yield))
            &&& !(from == x && to == p && h.lock == lock && (h.kind is Inquire || h.kind is Grant))
        }),
    ensures
        c.with_link(from, to, c.link(from, to).remove(0)).waits_well(lock, x, p, heard),
{
    let d = c.with_link(from, to, c.link(from, to).remove(0));
    lemma_pop_link(c, from, to, lock, x, p);
    lemma_pop_link(c, from, to, lock, p, x);
    assert(d.current(p, lock) == c.current(p, lock));
    assert(d.arbiter(x, lock) == c.arbiter(x, lock));
    assert forall|s: RequestId| #[trigger] d.known_at(x, lock, s) implies c.known_at(
        x,
        lock,
        s,
    ) by {}
}

// ---- deliveries ---------------------------------------------------------------------
/// A vote request arrives at `x`.
proof fn lemma_waits_request(
    c: ClusterView,
    from: NodeId,
    x: NodeId,
    now: Instant,
    lock: Seq<char>,
    p: NodeId,
    heard: bool,
)
    requires
        c.sane(),
        c.vote_in_one_place(lock, x, p),
        c.waits_well(lock, x, p, heard),
                c.members.contains(x),
        c.members.contains(p),
        c.members.contains(from),
        c.link(from, x).len() > 0,
        c.link(from, x)[0].lock == lock,
        c.link(from, x)[0].kind is Request,
        c.nodes[x].accepts(from, c.link(from, x)[0]),
    ensures
        c.next(Event::Deliver { from, to: x, now }).waits_well(lock, x, p, heard),
{
    let link = c.link(from, x);
    let msg = link[0];
    let req = msg.req;
    let b = c.with_link(from, x, link.remove(0));
    let m = c.nodes[x];
    let n = m.handle(now, from, msg);
    let d = b.flushed(x, n);
    assert(c.sane_node(x));
    assert(c.sane_node(p));
    let a = m.arbiter_of(lock);
    let a2 = n.arbiter_of(lock);
    assert(a.wf());
    assert(d.arbiter(x, lock) == a2);
    assert(c.arbiter(x, lock) == a);
    assert(b.current(p, lock) == c.current(p, lock));
    assert(d.current(p, lock) == c.current(p, lock));
    assert(d.requester(p, lock) == c.requester(p, lock));
    lemma_pop_link(c, from, x, lock, x, p);
    lemma_pop_link(c, from, x, lock, p, x);
    lemma_step_link(b, x, n, lock, x, p);
    lemma_step_link(b, x, n, lock, p, x);
    assert(n.outbox.len() <= 1);
    if n.outbox.len() == 1 {
        assert(n.outbox =~= seq![n.outbox[0]]);
        lemma_sent_one_counts(n.outbox[0], p, lock);
        lemma_sent_one_counts(n.outbox[0], x, lock);
    } else {
        assert(n.outbox =~= Seq::empty());
    }
    if heard && from == p {
        assert(c.current(from, lock) == Some(req) || released_behind(link, 0, lock, req));
        if released_behind(link, 0, lock, req) {
            lemma_behind_head(link, lock, req);
        }
    }
    assert forall|s: RequestId|
        heard && s.node == p && #[trigger] d.known_at(x, lock, s) implies d.asks(
        p,
        x,
    ) && (d.current(p, lock) == Some(s) || count(
        d.link(p, x),
        MessageKind::Release,
        lock,
        s,
    ) > 0) by {
        if s != req {
            assert(c.known_at(x, lock, s));
        }
    }
    if let Some(q) = c.requester(p, lock) {
        let r = q.req;
        assert(r.node == p);
        assert(c.vote_in_one_place(lock, x, p));
        if a.voted_for is None {
            assert(renewals_find_vote(c.link(p, x), lock, r, false));
            lemma_renewals_none(d.link(p, x), lock, r, a2.voted_for == Some(r));
        }
    }
}

/// If no vote is there to be renewed, there is nothing to renew.
proof fn lemma_renewals_none(s: Seq<MessageView>, lock: Seq<char>, r: RequestId, voted: bool)
    requires
        renewals_find_vote(s, lock, r, false),
    ensures
        renewals_find_vote(s, lock, r, voted),
{
}

/// An arbiter `x` gives its vote, which comes back from request `gone`, to the
/// next in line; `gone` waits again if it yielded.
proof fn lemma_waits_moved(
    c: ClusterView,
    from: NodeId,
    x: NodeId,
    now: Instant,
    lock: Seq<char>,
    p: NodeId,
    heard: bool,
)
    requires
        c.sane(),
        c.vote_in_one_place(lock, x, p),
        c.waits_well(lock, x, p, heard),
        c.members.contains(x),
        c.members.contains(p),
        c.members.contains(from),
        c.link(from, x).len() > 0,
        c.link(from, x)[0].lock == lock,
        c.link(from, x)[0].kind is Yield || c.link(from, x)[0].kind is Release,
        c.nodes[x].accepts(from, c.link(from, x)[0]),
        c.arbiter(x, lock).voted_for == Some(c.link(from, x)[0].req),
    ensures
        c.next(Event::Deliver { from, to: x, now }).waits_well(lock, x, p, heard),
{
    let link = c.link(from, x);
    let msg = link[0];
    let req = msg.req;
    let b = c.with_link(from, x, link.remove(0));
    let m = c.nodes[x];
    let n = m.handle(now, from, msg);
    let d = b.flushed(x, n);
    assert(c.sane_node(x));
    assert(c.sane_node(p));
    let a = m.arbiter_of(lock);
    let a2 = n.arbiter_of(lock);
    assert(a.wf());
    let mid = if msg.kind is Yield {
        arbiter_yielded(a, req)
    } else {
        arbiter_released(a, req, msg.fence)
    };
    assert(a2 == arbiter_grant_next(mid, now));
    if !(mid.queue =~= Set::empty()) {
        if mid.queue.len() == 0 {
            assert(mid.queue =~= Set::empty());
        }
        lemma_smallest(mid.queue);
    }
    assert(d.arbiter(x, lock) == a2);
    assert(c.arbiter(x, lock) == a);
    assert(d.current(p, lock) == c.current(p, lock));
    assert(d.requester(p, lock) == c.requester(p, lock));
    lemma_pop_link(c, from, x, lock, x, p);
    lemma_pop_link(c, from, x, lock, p, x);
    lemma_step_link(b, x, n, lock, x, p);
    lemma_step_link(b, x, n, lock, p, x);
    assert(n.outbox.len() <= 1);
    if n.outbox.len() == 1 {
        assert(n.outbox =~= seq![n.outbox[0]]);
        lemma_sent_one_counts(n.outbox[0], p, lock);
        lemma_sent_one_counts(n.outbox[0], x, lock);
    } else {
        assert(n.outbox =~= Seq::empty());
    }
    // a released request is not current, and leaves the arbiter
    if let Some(q) = c.requester(p, lock) {
        assert(c.vote_in_one_place(lock, x, p));
        if msg.kind is Release && q.req == req {
            lemma_count_positive(link, 0, MessageKind::Release, lock, req);
        }
    }
    assert(a.queue.contains(req) == false);
    assert forall|s: RequestId|
        heard && s.node == p && #[trigger] d.known_at(x, lock, s) implies d.asks(
        p,
        x,
    ) && (d.current(p, lock) == Some(s) || count(
        d.link(p, x),
        MessageKind::Release,
        lock,
        s,
    ) > 0) by {
        assert(c.known_at(x, lock, s));
        if msg.kind is Release {
            assert(s != req);
        }
    }
    if let Some(q) = c.requester(p, lock) {
        let r = q.req;
        assert(r.node == p);
        if r == req {
            assert(from == p);
            assert(msg.kind is Yield);
            assert(link == c.link(p, x));
            assert(renewals_find_vote(link.remove(0), lock, r, false)) by {
                let t = link.remove(0);
                assert forall|i: int|
                    0 <= i < t.len() && is_about(
                        #[trigger] t[i],
                        MessageKind::Renew,
                        lock,
                        r,
                    ) implies false by {
                    assert(t[i] == link[i + 1]);
                    assert(is_about(link[0], MessageKind::Yield, lock, r));
                }
            }
            assert(renewals_find_vote(b.link(p, x), lock, r, false));
        } else {
            assert(renewals_find_vote(c.link(p, x), lock, r, false));
        }
        assert(renewals_find_vote(d.link(p, x), lock, r, false));
        lemma_renewals_none(d.link(p, x), lock, r, a2.voted_for == Some(r));
    }
}

/// A yield or a release arrives at an arbiter whose vote is elsewhere.
proof fn lemma_waits_missed(
    c: ClusterView,
    from: NodeId,
    x: NodeId,
    now: Instant,
    lock: Seq<char>,
    p: NodeId,
    heard: bool,
)
    requires
        c.sane(),
        c.vote_in_one_place(lock, x, p),
        c.waits_well(lock, x, p, heard),
        c.members.contains(x),
        c.members.contains(p),
        c.members.contains(from),
        c.link(from, x).len() > 0,
        c.link(from, x)[0].lock == lock,
        c.link(from, x)[0].kind is Yield || c.link(from, x)[0].kind is Release,
        c.nodes[x].accepts(from, c.link(from, x)[0]),
        c.arbiter(x, lock).voted_for != Some(c.link(from, x)[0].req),
    ensures
        c.next(Event::Deliver { from, to: x, now }).waits_well(lock, x, p, heard),
{
    let link = c.link(from, x);
    let msg = link[0];
    let req = msg.req;
    let b = c.with_link(from, x, link.remove(0));
    let m = c.nodes[x];
    let n = m.handle(now, from, msg);
    let d = b.flushed(x, n);
    assert(c.sane_node(x));
    assert(c.sane_node(p));
    let a = m.arbiter_of(lock);
    let a2 = n.arbiter_of(lock);
    assert(a.wf());
    assert(d.arbiter(x, lock) == a2);
    assert(d.current(p, lock) == c.current(p, lock));
    assert(d.requester(p, lock) == c.requester(p, lock));
    lemma_pop_link(c, from, x, lock, x, p);
    lemma_pop_link(c, from, x, lock, p, x);
    lemma_step_link(b, x, n, lock, x, p);
    lemma_step_link(b, x, n, lock, p, x);
    assert(n.outbox =~= Seq::empty());
    if let Some(q) = c.requester(p, lock) {
        assert(c.vote_in_one_place(lock, x, p));
        if msg.kind is Release && q.req == req {
            lemma_count_positive(link, 0, MessageKind::Release, lock, req);
        }
    }
    assert forall|s: RequestId|
        heard && s.node == p && #[trigger] d.known_at(x, lock, s) implies d.asks(
        p,
        x,
    ) && (d.current(p, lock) == Some(s) || count(
        d.link(p, x),
        MessageKind::Release,
        lock,
        s,
    ) > 0) by {
        assert(c.known_at(x, lock, s));
        if msg.kind is Release {
            assert(s != req);
        }
    }
}

/// A message for the requester arrives at `p`.
proof fn lemma_waits_requester(
    c: ClusterView,
    from: NodeId,
    p: NodeId,
    now: Instant,
    lock: Seq<char>,
    x: NodeId,
    heard: bool,
)
    requires
        c.sane(),
        c.vote_in_one_place(lock, x, p),
        c.waits_well(lock, x, p, heard),
        c.vote_in_one_place(lock, from, p),
        c.waits_well(lock, from, p, false),
        c.members.contains(x),
        c.members.contains(p),
        c.members.contains(from),
        c.link(from, p).len() > 0,
        c.link(from, p)[0].lock == lock,
        !c.link(from, p)[0].kind.to_arbiter(),
        c.nodes[p].accepts(from, c.link(from, p)[0]),
    ensures
        c.next(Event::Deliver { from, to: p, now }).waits_well(lock, x, p, heard),
{
    let link = c.link(from, p);
    let msg = link[0];
    let req = msg.req;
    let b = c.with_link(from, p, link.remove(0));
    let m = c.nodes[p];
    let n = m.handle(now, from, msg);
    let d = b.flushed(p, n);
    assert(c.sane_node(x));
    assert(c.sane_node(p));
    assert(d.arbiter(x, lock) == c.arbiter(x, lock));
    let a = c.arbiter(x, lock);
    assert(c.vote_in_one_place(lock, from, p));
    if msg.kind is Revoked && m.request_of(lock) == Some(req) {
        lemma_count_positive(link, 0, MessageKind::Revoked, lock, req);
        assert(false);
    }
    assert(d.current(p, lock) == c.current(p, lock));
    lemma_pop_link(c, from, p, lock, x, p);
    lemma_pop_link(c, from, p, lock, p, x);
    assert(asks_nothing(n.outbox, lock));
    lemma_step_link(b, p, n, lock, x, p);
    lemma_step_link(b, p, n, lock, p, x);
    assert forall|s: RequestId|
        heard && s.node == p && #[trigger] d.known_at(x, lock, s) implies d.asks(
        p,
        x,
    ) && (d.current(p, lock) == Some(s) || count(
        d.link(p, x),
        MessageKind::Release,
        lock,
        s,
    ) > 0) by {
        assert(c.known_at(x, lock, s));
    }
    if let Some(q) = c.requester(p, lock) {
        let q2 = d.requester(p, lock)->0;
        assert(q2.req == q.req);
        lemma_vote_added(q.votes, from);
        lemma_vote_removed(q.votes, from);
        lemma_sent_none_of(n.outbox, p, MessageKind::Revoked, lock, q.req);
        if msg.kind is Inquire && q.req == req && !q.locked {
            assert(n.outbox =~= seq![n.outbox[0]]);
            lemma_sent_one_counts(n.outbox[0], x, lock);
            lemma_sent_one_counts(n.outbox[0], p, lock);
        }
        if a.voted_for == Some(q.req) {
            assert(c.known_at(x, lock, q.req));
        }
    }
    if let Some(v) = a.voted_for {
        if heard && v.node == p && a.inquired && msg.kind is Inquire && from == x && v == req {
            assert(c.known_at(x, lock, v));
            if c.current(p, lock) == Some(v) && !m.requester.map[lock].locked {
                assert(n.outbox =~= seq![n.outbox[0]]);
                lemma_sent_one_counts(n.outbox[0], x, lock);
            }
        }
    }
}

/// A requester's answers are no revocations.
proof fn lemma_sent_none_of(
    out: Seq<OutgoingView>,
    t: NodeId,
    kind: MessageKind,
    lock: Seq<char>,
    r: RequestId,
)
    requires
        forall|j: int| 0 <= j < out.len() ==> (#[trigger] out[j]).msg.kind != kind,
    ensures
        count(sent_to(out, t), kind, lock, r) == 0,
{
    lemma_sent_none(out, t, kind, lock, r);
}

/// Every delivery keeps the two from waiting in vain.
#[verifier::spinoff_prover]
#[verifier::rlimit(40)]
proof fn lemma_waits_deliver(
    c: ClusterView,
    from: NodeId,
    to: NodeId,
    now: Instant,
    lock: Seq<char>,
    x: NodeId,
    p: NodeId,
    heard: bool,
)
    requires
        c.sane(),
        c.vote_in_one_place(lock, x, p),
        c.vote_in_one_place(lock, to, p),
        c.vote_in_one_place(lock, from, p),
        c.waits_well(lock, x, p, heard),
        c.waits_well(lock, from, p, false),
        c.members.contains(from),
        c.members.contains(to),
        c.members.contains(x),
        c.members.contains(p),
        c.link(from, to).len() > 0,
    ensures
        c.next(Event::Deliver { from, to, now }).waits_well(lock, x, p, heard),
{
    let link = c.link(from, to);
    let msg = link[0];
    let b = c.with_link(from, to, link.remove(0));
    let m = c.nodes[to];
    let n = m.handle(now, from, msg);
    let d = b.flushed(to, n);
    assert(c.sane_node(to));
    assert(c.sane_node(p));
    assert(c.sane_link(from, to));
    let a = m.arbiter_of(lock);
    assert(a.wf());
    if msg.lock != lock {
        lemma_handle_other_lock(m, now, from, msg, lock);
        lemma_waits_pop(c, from, to, lock, x, p, heard);
        lemma_waits_frame(b, to, n, lock, x, p, heard);
        assert(d.arbiter(x, lock) == c.arbiter(x, lock));
    } else if !m.accepts(from, msg) {
        lemma_waits_unaccepted(c, from, to, lock, x, p, heard);
        assert(d.arbiter(x, lock) == c.arbiter(x, lock));
    } else if msg.kind.to_arbiter() {
        if x == to {
            match msg.kind {
                MessageKind::Request => {
                    lemma_waits_request(c, from, x, now, lock, p, heard);
                },
                MessageKind::Yield | MessageKind::Release => {
                    if a.voted_for == Some(msg.req) {
                        lemma_waits_moved(c, from, x, now, lock, p, heard);
                    } else {
                        lemma_waits_missed(c, from, x, now, lock, p, heard);
                    }
                },
                MessageKind::Renew => {
                    lemma_waits_pop(c, from, to, lock, x, p, heard);
                    if let Some(q) = c.requester(p, lock) {
                        if q.req == msg.req {
                            assert(from == p);
                            assert(is_about(link[0], MessageKind::Renew, lock, q.req));
                        }
                    }
                    lemma_waits_frame(b, to, n, lock, x, p, heard);
                },
                _ => {
                    lemma_waits_pop(c, from, to, lock, x, p, heard);
                    lemma_waits_frame(b, to, n, lock, x, p, heard);
                },
            }
        } else {
            lemma_waits_pop(c, from, to, lock, x, p, heard);
            lemma_waits_frame(b, to, n, lock, x, p, heard);
            assert(d.arbiter(x, lock) == c.arbiter(x, lock));
        }
    } else {
        assert(d.arbiter(x, lock) == c.arbiter(x, lock));
        if p == to {
            lemma_waits_requester(c, from, p, now, lock, x, heard);
        } else {
            lemma_waits_pop(c, from, to, lock, x, p, heard);
            if let Some(q) = c.requester(p, lock) {
                assert(q.req.node == p);
            }
            lemma_waits_frame(b, to, n, lock, x, p, heard);
        }
    }
}

/// A message that is not accepted is one that nobody waits for.
proof fn lemma_waits_unaccepted(
    c: ClusterView,
    from: NodeId,
    to: NodeId,
    lock: Seq<char>,
    x: NodeId,
    p: NodeId,
    heard: bool,
)
    requires
        c.sane(),
        c.waits_well(lock, x, p, heard),
        c.members.contains(from),
        c.members.contains(to),
        c.members.contains(p),
        c.link(from, to).len() > 0,
        c.link(from, to)[0].lock == lock,
        !c.nodes[to].accepts(from, c.link(from, to)[0]),
    ensures
        c.with_link(from, to, c.link(from, to).remove(0)).flushed(
            to,
            c.nodes[to],
        ).waits_well(lock, x, p, heard),
{
    let link = c.link(from, to);
    let msg = link[0];
    let b = c.with_link(from, to, link.remove(0));
    let n = c.nodes[to];
    let d = b.flushed(to, n);
    assert(c.sane_link(from, to));
    assert(c.sane_node(to));
    assert(c.sane_node(p));
    assert(c.made(msg.req));
    lemma_pop_link(c, from, to, lock, x, p);
    lemma_pop_link(c, from, to, lock, p, x);
    assert(d.current(p, lock) == c.current(p, lock));
    assert(d.requester(p, lock) == c.requester(p, lock));
    assert(d.arbiter(x, lock) == c.arbiter(x, lock));
    lemma_step_link(b, to, n, lock, x, p);
    lemma_step_link(b, to, n, lock, p, x);
    assert(n.outbox =~= Seq::empty());
    assert forall|s: RequestId| #[trigger] d.known_at(x, lock, s) implies c.known_at(
        x,
        lock,
        s,
    ) by {}
}

// ---- intent and time ------------------------------------------------------------------
/// A new request is on its way to every arbiter it needs.
proof fn lemma_waits_fresh(c: ClusterView, p: NodeId, now: Instant, lock: Seq<char>, x: NodeId, heard: bool)
    requires
        c.sane(),
        c.waits_well(lock, x, p, heard),
        c.members.contains(p),
        c.members.contains(x),
        c.nodes[p].lamport < u64::MAX,
        !c.nodes[p].requester.map.contains_key(lock),
    ensures
        c.flushed(p, c.nodes[p].request(now, lock)).waits_well(lock, x, p, heard),
{
    let m = c.nodes[p];
    let n = m.request(now, lock);
    let r = m.next_request();
    let d = c.flushed(p, n);
    assert(c.sane_node(p));
    assert(c.sane_node(x));
    assert(!c.made(r));
    lemma_unmade(c, x, p, lock, r);
    let msg = crate::types::plain_message(MessageKind::Request, lock, r);
    let sent = sent_to(n.outbox, x);
    assert(n.outbox =~= send_all(m.targets(), msg));
    assert forall|i: int| 0 <= i < sent.len() implies #[trigger] sent[i] == msg && d.asks(
        p,
        x,
    ) by {
        let j = lemma_sent_to(n.outbox, x, i);
        assert(n.outbox[j].to == m.targets()[j]);
    }
    if d.asks(p, x) {
        lemma_sent_all(m.targets(), msg, x);
    }
    lemma_step_link(c, p, n, lock, x, p);
    lemma_step_link(c, p, n, lock, p, x);
    lemma_sent_none_of(n.outbox, p, MessageKind::Revoked, lock, r);
    assert forall|s: RequestId|
        heard && s.node == p && #[trigger] d.known_at(x, lock, s) implies d.asks(
        p,
        x,
    ) && (d.current(p, lock) == Some(s) || count(
        d.link(p, x),
        MessageKind::Release,
        lock,
        s,
    ) > 0) by {
        assert(c.known_at(x, lock, s));
    }
    let back = c.link(p, x);
    assert(heard ==> requests_backed(d.link(p, x), lock, p, d.asks(p, x), Some(r))) by {
        let u = back + sent;
        assert forall|i: int|
            heard && 0 <= i < u.len() && (#[trigger] u[i]).kind is Request && u[i].lock == lock implies {
            &&& u[i].req.node == p
            &&& d.asks(p, x)
            &&& Some(r) == Some(u[i].req) || released_behind(u, i, lock, u[i].req)
        } by {
            if i < back.len() {
                assert(u[i] == back[i]);
                lemma_behind_append(back, sent, i, lock, back[i].req);
            } else {
                assert(u[i] == sent[i - back.len()]);
            }
        }
    }
    assert(renewals_find_vote(d.link(p, x), lock, r, false)) by {
        let u = back + sent;
        lemma_count_zero(back, MessageKind::Renew, lock, r);
        assert forall|i: int|
            0 <= i < u.len() && is_about(
                #[trigger] u[i],
                MessageKind::Renew,
                lock,
                r,
            ) implies false by {
            if i < back.len() {
                assert(u[i] == back[i]);
            } else {
                assert(u[i] == sent[i - back.len()]);
            }
        }
    }
    assert(d.current(p, lock) == Some(r));
    assert(d.requester(p, lock)->0.req == r);
    assert(d.arbiter(x, lock) == c.arbiter(x, lock));
}

/// A released request is followed by its release.
proof fn lemma_waits_released(c: ClusterView, p: NodeId, lock: Seq<char>, x: NodeId, heard: bool)
    requires
        c.sane(),
        c.waits_well(lock, x, p, heard),
        c.members.contains(p),
        c.members.contains(x),
        c.nodes[p].requester.map.contains_key(lock),
    ensures
        c.flushed(p, c.nodes[p].release(lock)).waits_well(lock, x, p, heard),
{
    let m = c.nodes[p];
    let n = m.release(lock);
    let q = m.requester.map[lock];
    let r = q.req;
    let d = c.flushed(p, n);
    assert(c.sane_node(p));
    let msg = crate::types::fenced_message(MessageKind::Release, lock, r, q.best_fence);
    assert(n.outbox =~= send_all(m.targets(), msg));
    let sent = sent_to(n.outbox, x);
    if d.asks(p, x) {
        lemma_sent_all(m.targets(), msg, x);
    }
    lemma_step_link(c, p, n, lock, x, p);
    lemma_step_link(c, p, n, lock, p, x);
    let back = c.link(p, x);
    assert(d.current(p, lock) is None);
    assert forall|s: RequestId|
        heard && s.node == p && #[trigger] d.known_at(x, lock, s) implies d.asks(
        p,
        x,
    ) && (d.current(p, lock) == Some(s) || count(
        d.link(p, x),
        MessageKind::Release,
        lock,
        s,
    ) > 0) by {
        assert(c.known_at(x, lock, s));
    }
    assert(heard ==> requests_backed(d.link(p, x), lock, p, d.asks(p, x), None)) by {
        let u = back + sent;
        assert forall|i: int|
            heard && 0 <= i < u.len() && (#[trigger] u[i]).kind is Request && u[i].lock == lock implies {
            &&& u[i].req.node == p
            &&& d.asks(p, x)
            &&& released_behind(u, i, lock, u[i].req)
        } by {
            if i < back.len() {
                assert(u[i] == back[i]);
                lemma_behind_append(back, sent, i, lock, back[i].req);
            } else {
                assert(u[i] == sent[i - back.len()]);
                let j = lemma_sent_to(n.outbox, x, i - back.len());
            }
        }
    }
    assert(d.arbiter(x, lock) == c.arbiter(x, lock));
    if let Some(v) = c.arbiter(x, lock).voted_for {
        assert(c.known_at(x, lock, v));
    }
}

/// Losing a message that the two do not wait for leaves them as they are.
proof fn lemma_waits_lose(
    c: ClusterView,
    from: NodeId,
    to: NodeId,
    k: int,
    lock: Seq<char>,
    x: NodeId,
    p: NodeId,
    heard: bool,
)
    requires
        c.waits_well(lock, x, p, heard),
        0 <= k < c.link(from, to).len(),
        heard ==> !(from == x && to == p) && !(from == p && to == x),
    ensures
        c.with_link(from, to, c.link(from, to).remove(k)).waits_well(lock, x, p, heard),
{
    let s = c.link(from, to);
    let t = s.remove(k);
    let d = c.with_link(from, to, t);
    assert(d.current(p, lock) == c.current(p, lock));
    assert(d.arbiter(x, lock) == c.arbiter(x, lock));
    assert forall|r: RequestId| #[trigger] d.known_at(x, lock, r) implies c.known_at(
        x,
        lock,
        r,
    ) by {}
    if let Some(q) = c.requester(p, lock) {
        let r = q.req;
        lemma_count_remove(s, k, MessageKind::Revoked, lock, r);
        if from == p && to == x {
            let voted = c.arbiter(x, lock).voted_for == Some(r);
            assert forall|i: int|
                0 <= i < t.len() && is_about(#[trigger] t[i], MessageKind::Renew, lock, r)
                    implies voted && (forall|j: int|
                0 <= j < i ==> !is_about(#[trigger] t[j], MessageKind::Yield, lock, r)) by {
                let i2 = if i < k {
                    i
                } else {
                    i + 1
                };
                assert(t[i] == s[i2]);
                assert forall|j: int| 0 <= j < i implies !is_about(
                    #[trigger] t[j],
                    MessageKind::Yield,
                    lock,
                    r,
                ) by {
                    let j2 = if j < k {
                        j
                    } else {
                        j + 1
                    };
                    assert(t[j] == s[j2]);
                }
            }
        }
    }
}

/// A tick that finds no lapsed lease on a vote for `p` keeps the two from waiting
/// in vain.
proof fn lemma_waits_tick(
    c: ClusterView,
    a: NodeId,
    now: Instant,
    lock: Seq<char>,
    x: NodeId,
    p: NodeId,
    live: Set<NodeId>,
    heard: bool,
)
    requires
        c.sane(),
        c.vote_in_one_place(lock, x, p),
        c.waits_well(lock, x, p, heard),
        c.members.contains(a),
        c.members.contains(p),
        c.members.contains(x),
        live.contains(p),
        c.spares(Event::Tick { node: a, now }, live),
    ensures
        c.flushed(a, c.nodes[a].tick(now)).waits_well(lock, x, p, heard),
{
    let m = c.nodes[a];
    let n = m.tick(now);
    let d = c.flushed(a, n);
    assert(c.sane_node(a));
    assert(c.sane_node(p));
    assert(c.sane_node(x));
    let v = c.arbiter(x, lock);
    assert(v.wf());
    if !(v.queue =~= Set::empty()) {
        if v.queue.len() == 0 {
            assert(v.queue =~= Set::empty());
        }
        lemma_smallest(v.queue);
    }
    lemma_step_link(c, a, n, lock, x, p);
    lemma_step_link(c, a, n, lock, p, x);
    lemma_tick_votes(m, now, lock, arbitrary(), p);
    assert(d.current(p, lock) == c.current(p, lock));
    assert forall|s: RequestId| #[trigger] d.known_at(x, lock, s) implies c.known_at(
        x,
        lock,
        s,
    ) by {}
    if let Some(q) = c.requester(p, lock) {
        assert(q.req.node == p);
        lemma_tick_votes(m, now, lock, q.req, p);
        lemma_tick_votes(m, now, lock, q.req, x);
    }
    if p == a {
        lemma_waits_tick_back(c, a, now, lock, x, heard);
    }
}

/// What a ticking requester sends is backed by its request and finds its vote.
proof fn lemma_waits_tick_back(
    c: ClusterView,
    p: NodeId,
    now: Instant,
    lock: Seq<char>,
    x: NodeId,
    heard: bool,
)
    requires
        c.sane(),
        c.vote_in_one_place(lock, x, p),
        c.waits_well(lock, x, p, heard),
        c.members.contains(p),
    ensures
        ({
            let d = c.flushed(p, c.nodes[p].tick(now));
            &&& heard ==> requests_backed(
                d.link(p, x),
                lock,
                p,
                c.asks(p, x),
                c.current(p, lock),
            )
            &&& c.requester(p, lock) matches Some(q) ==> renewals_find_vote(
                d.link(p, x),
                lock,
                q.req,
                c.arbiter(x, lock).voted_for == Some(q.req),
            ) && (c.arbiter(x, lock).voted_for != Some(q.req) ==> renewals_find_vote(
                d.link(p, x),
                lock,
                q.req,
                false,
            ))
        }),
{
    let m = c.nodes[p];
    let n = m.tick(now);
    let d = c.flushed(p, n);
    assert(c.sane_node(p));
    let sent = sent_to(n.outbox, x);
    let back = c.link(p, x);
    assert forall|i: int|
        0 <= i < sent.len() && (#[trigger] sent[i]).lock == lock && (sent[i].kind is Renew
            || sent[i].kind is Request) implies {
        &&& c.requester(p, lock) matches Some(q) && q.req == sent[i].req && (sent[i].kind is Renew
            && q.votes.contains(x) || sent[i].kind is Request && c.asks(p, x))
    } by {
        let j = lemma_sent_to(n.outbox, x, i);
        lemma_tick_asks(m, now, j);
        assert(n.outbox[j].msg == sent[i]);
    }
    assert forall|i: int| 0 <= i < sent.len() implies !((#[trigger] sent[i]).kind is Yield) by {
        let j = lemma_sent_to(n.outbox, x, i);
        lemma_tick_asks(m, now, j);
    }
    let u = back + sent;
    assert forall|i: int|
        heard && 0 <= i < u.len() && (#[trigger] u[i]).kind is Request && u[i].lock
            == lock implies {
        &&& u[i].req.node == p
        &&& c.asks(p, x)
        &&& c.current(p, lock) == Some(u[i].req) || released_behind(u, i, lock, u[i].req)
    } by {
        if i < back.len() {
            assert(u[i] == back[i]);
            lemma_behind_append(back, sent, i, lock, back[i].req);
        } else {
            assert(u[i] == sent[i - back.len()]);
        }
    }
    if let Some(q) = c.requester(p, lock) {
        let r = q.req;
        let voted = c.arbiter(x, lock).voted_for == Some(r);
        lemma_count_zero(back, MessageKind::Yield, lock, r);
        assert forall|i: int|
            0 <= i < u.len() && is_about(#[trigger] u[i], MessageKind::Renew, lock, r)
                implies voted && (forall|j: int|
            0 <= j < i ==> !is_about(#[trigger] u[j], MessageKind::Yield, lock, r)) by {
            if i < back.len() {
                assert(u[i] == back[i]);
                assert forall|j: int| 0 <= j < i implies !is_about(
                    #[trigger] u[j],
                    MessageKind::Yield,
                    lock,
                    r,
                ) by {
                    assert(u[j] == back[j]);
                }
            } else {
                assert(u[i] == sent[i - back.len()]);
                assert forall|j: int| 0 <= j < i implies !is_about(
                    #[trigger] u[j],
                    MessageKind::Yield,
                    lock,
                    r,
                ) by {
                    if j < back.len() {
                        assert(u[j] == back[j]);
                    } else {
                        assert(u[j] == sent[j - back.len()]);
                    }
                }
            }
        }
    }
}

/// An arbiter with a request waiting that is smaller than the votee's has asked
/// the votee to yield, whatever happens.
proof fn lemma_preempts_next(c: ClusterView, e: Event, lock: Seq<char>, x: NodeId)
    requires
        c.sane(),
        c.members.contains(x),
        c.preempts(lock, x),
    ensures
        c.next(e).preempts(lock, x),
{
    let a = c.arbiter(x, lock);
    assert(c.sane_node(x));
    assert(a.wf());
    match e {
        Event::Deliver { from, to, now } => {
            if c.members.contains(to) && c.link(from, to).len() > 0 && x == to {
                let msg = c.link(from, to)[0];
                let m = c.nodes[x];
                let n = m.handle(now, from, msg);
                assert(c.next(e).arbiter(x, lock) == n.arbiter_of(lock));
                if msg.lock != lock {
                    lemma_handle_other_lock(m, now, from, msg, lock);
                } else if msg.kind is Yield || msg.kind is Release {
                    let mid = if msg.kind is Yield {
                        arbiter_yielded(a, msg.req)
                    } else {
                        arbiter_released(a, msg.req, msg.fence)
                    };
                    lemma_next_preempts(mid, now);
                }
            }
        },
        Event::Tick { node, now } => {
            if c.members.contains(node) && x == node {
                lemma_tick_votes(c.nodes[node], now, lock, arbitrary(), x);
                lemma_next_preempts(a, now);
            }
        },
        _ => {},
    }
}

/// Nobody who waits is before the next in line.
proof fn lemma_next_preempts(a: ArbiterView, now: Instant)
    requires
        a.queue.finite(),
    ensures
        arbiter_grant_next(a, now).voted_for matches Some(v) ==> forall|m: RequestId| #[trigger]
            arbiter_grant_next(a, now).queue.contains(m) ==> !m.precedes(v),
{
    if !(a.queue =~= Set::empty()) {
        if a.queue.len() == 0 {
            assert(a.queue =~= Set::empty());
        }
        lemma_smallest(a.queue);
    }
}

/// Every event that takes no vote from a `live` node and loses nothing between two
/// of them keeps them from waiting in vain.
pub proof fn lemma_waits_next(c: ClusterView, e: Event, live: Set<NodeId>)
    requires
        c.sane(),
        c.votes_in_one_place(live),
        c.all_wait_well(live),
        c.spares(e, live),
        e matches Event::Lose { from, to, .. } ==> !(live.contains(from) && live.contains(to)),
    ensures
        c.next(e).all_wait_well(live),
{
    let d = c.next(e);
    lemma_sane_next(c, e);
    assert forall|lock: Seq<char>, x: NodeId, p: NodeId|
        d.members.contains(x) && d.members.contains(p) && live.contains(p) implies #[trigger]
        d.waits_well(lock, x, p, live.contains(x)) by {
        let heard = live.contains(x);
        assert(c.waits_well(lock, x, p, heard));
        assert(c.vote_in_one_place(lock, x, p));
        match e {
            Event::Request { node, now, lock: l } => {
                if c.members.contains(node) && c.nodes[node].lamport < u64::MAX {
                    let m = c.nodes[node];
                    assert(c.sane_node(node));
                    if p == node && l == lock && !m.requester.map.contains_key(l) {
                        lemma_waits_fresh(c, p, now, lock, x, heard);
                    } else {
                        lemma_waits_frame(c, node, m.request(now, l), lock, x, p, heard);
                    }
                }
            },
            Event::Release { node, lock: l } => {
                if c.members.contains(node) {
                    let m = c.nodes[node];
                    assert(c.sane_node(node));
                    if p == node && l == lock && m.requester.map.contains_key(l) {
                        lemma_waits_released(c, p, lock, x, heard);
                    } else {
                        lemma_waits_frame(c, node, m.release(l), lock, x, p, heard);
                    }
                }
            },
            Event::Deliver { from, to, now } => {
                if c.members.contains(to) && c.link(from, to).len() > 0 {
                    assert(c.sane_link(from, to));
                    assert(c.waits_well(lock, from, p, live.contains(from)));
                    assert(c.vote_in_one_place(lock, to, p));
                    assert(c.vote_in_one_place(lock, from, p));
                    lemma_waits_deliver(c, from, to, now, lock, x, p, heard);
                }
            },
            Event::Lose { from, to, index } => {
                if 0 <= index < c.link(from, to).len() {
                    lemma_waits_lose(c, from, to, index, lock, x, p, heard);
                }
            },
            Event::Tick { node, now } => {
                if c.members.contains(node) {
                    lemma_waits_tick(c, node, now, lock, x, p, live, heard);
                }
            },
        }
    }
    assert forall|lock: Seq<char>, x: NodeId| d.members.contains(x) implies #[trigger] d.preempts(
        lock,
        x,
    ) by {
        assert(c.preempts(lock, x));
        lemma_preempts_next(c, e, lock, x);
    }
}

/// None of the `live` nodes waits in vain in a cluster that events lead to which
/// take no vote from them and lose nothing between two of them.
pub proof fn lemma_waits_after(
    policy: QuorumPolicy,
    members: Seq<NodeId>,
    events: Seq<Event>,
    live: Set<NodeId>,
)
    requires
        members.no_duplicates(),
        spares(policy, members, events, live),
        lossless_among(events, live),
    ensures
        after(policy, members, events).all_wait_well(live),
    decreases events.len(),
{
    if events.len() == 0 {
        let c = ClusterView::start(policy, members);
        assert forall|lock: Seq<char>, x: NodeId, p: NodeId|
            c.members.contains(x) && c.members.contains(p) && live.contains(p) implies #[trigger]
            c.waits_well(lock, x, p, live.contains(x)) by {
            assert(c.arbiter(x, lock).queue =~= Set::empty());
        }
    } else {
        let init = events.drop_last();
        assert(lossless_among(init, live)) by {
            assert forall|i: int|
                0 <= i < init.len() implies (#[trigger] init[i] matches Event::Lose { from, to, .. }
                ==> !(live.contains(from) && live.contains(to))) by {
                assert(init[i] == events[i]);
            }
        }
        assert(events[events.len() - 1] == events.last());
        lemma_waits_after(policy, members, init, live);
        lemma_votes_after(policy, members, init, live);
        lemma_sane_after(policy, members, init);
        lemma_waits_next(after(policy, members, init), events.last(), live);
    }
}

/// Node `i` of the members is `live` and wants `lock`.
spec fn wants(c: ClusterView, live: Set<NodeId>, lock: Seq<char>, i: int) -> bool {
    live.contains(c.members[i]) && c.current(c.members[i], lock) is Some
}

/// Some node has the smallest request of `live` nodes among the first `k` members.
proof fn lemma_first(c: ClusterView, live: Set<NodeId>, lock: Seq<char>, k: int) -> (p: NodeId)
    requires
        c.sane(),
        0 <= k <= c.members.len(),
        exists|i: int| 0 <= i < k && #[trigger] wants(c, live, lock, i),
    ensures
        c.members.contains(p),
        live.contains(p),
        c.current(p, lock) is Some,
        forall|i: int|
            0 <= i < k && #[trigger] wants(c, live, lock, i) ==> c.members[i] == p || c.current(
                p,
                lock,
            )->0.precedes(c.current(c.members[i], lock)->0),
    decreases k,
{
    let last = c.members[k - 1];
    assert(c.sane_node(last)) by {
        assert(c.members.contains(last));
    }
    if exists|i: int| 0 <= i < k - 1 && #[trigger] wants(c, live, lock, i) {
        let p = lemma_first(c, live, lock, k - 1);
        assert(c.sane_node(p));
        if wants(c, live, lock, k - 1) && c.current(last, lock)->0.precedes(
            c.current(p, lock)->0,
        ) {
            last
        } else {
            p
        }
    } else {
        last
    }
}

/// Enough of those that `p` asks for their vote are `live`.
pub open spec fn can_reach_quorum(
    policy: QuorumPolicy,
    members: Seq<NodeId>,
    live: Set<NodeId>,
    p: NodeId,
) -> bool {
    quorum_targets(policy, p, members).filter(|x: NodeId| live.contains(x)).len()
        >= quorum_threshold(policy, p, members)
}

/// **No deadlock.** If no lease lapses and nothing is lost, then whenever the
/// cluster is at rest (every message has arrived) and somebody wants a lock,
/// some node holds it.
pub proof fn law_no_deadlock(
    policy: QuorumPolicy,
    members: Seq<NodeId>,
    events: Seq<Event>,
    lock: Seq<char>,
    p: NodeId,
) -> (holder: NodeId)
    requires
        members.no_duplicates(),
        leases_hold(policy, members, events),
        lossless(events),
        after(policy, members, events).at_rest(Set::full()),
        members.contains(p),
        after(policy, members, events).current(p, lock) is Some,
    ensures
        after(policy, members, events).holds(holder, lock),
{
    let all = Set::<NodeId>::full();
    lemma_leases_spare(policy, members, events, all);
    assert forall|q: NodeId| #[trigger] members.contains(q) implies can_reach_quorum(
        policy,
        members,
        all,
        q,
    ) by {
        lemma_all_reach_quorum(policy, members, q);
    }
    law_survivors_make_progress(policy, members, events, all, lock, p)
}

/// With all nodes alive, everybody can reach a quorum.
pub proof fn lemma_all_reach_quorum(policy: QuorumPolicy, members: Seq<NodeId>, p: NodeId)
    requires
        valid_members(p, members),
    ensures
        can_reach_quorum(policy, members, Set::full(), p),
{
    lemma_threshold_positive(policy, p, members);
    lemma_filter_all(
        quorum_targets(policy, p, members),
        |x: NodeId| Set::<NodeId>::full().contains(x),
    );
}

/// A filter that everything passes changes nothing.
proof fn lemma_filter_all(s: Seq<NodeId>, f: spec_fn(NodeId) -> bool)
    requires
        forall|x: NodeId| #[trigger] f(x),
    ensures
        s.filter(f) == s,
    decreases s.len(),
{
    reveal(Seq::filter);
    if s.len() > 0 {
        lemma_filter_all(s.drop_last(), f);
        assert(s.drop_last().push(s.last()) =~= s);
    }
}

/// What passes a filter and what does not are everything.
proof fn lemma_filter_split(s: Seq<NodeId>, live: Set<NodeId>)
    ensures
        s.filter(|x: NodeId| live.contains(x)).len() + s.filter(
            |x: NodeId| !live.contains(x),
        ).len() == s.len(),
    decreases s.len(),
{
    reveal(Seq::filter);
    if s.len() > 0 {
        lemma_filter_split(s.drop_last(), live);
    }
}

/// **A majority tolerates any minority of crashes**: as long as fewer than half of
/// the nodes have crashed, everybody can reach a majority.
pub proof fn law_majority_tolerates_a_minority_of_crashes(
    members: Seq<NodeId>,
    live: Set<NodeId>,
    p: NodeId,
)
    requires
        2 * members.filter(|x: NodeId| !live.contains(x)).len() < members.len(),
    ensures
        can_reach_quorum(QuorumPolicy::Majority, members, live, p),
{
    lemma_filter_split(members, live);
}

/// **A grid needs every node of the row and the column**: a node can reach its grid
/// quorum exactly if none of those that it asks has crashed.
pub proof fn law_grid_needs_its_whole_quorum(members: Seq<NodeId>, live: Set<NodeId>, p: NodeId)
    requires
        valid_members(p, members),
    ensures
        can_reach_quorum(QuorumPolicy::Grid, members, live, p) <==> forall|x: NodeId| #[trigger]
            quorum_targets(QuorumPolicy::Grid, p, members).contains(x) ==> live.contains(x),
{
    let targets = quorum_targets(QuorumPolicy::Grid, p, members);
    let lost = targets.filter(|x: NodeId| !live.contains(x));
    lemma_filter_split(targets, live);
    lemma_filter_no_duplicates(targets, |x: NodeId| !live.contains(x));
    if lost.len() > 0 {
        assert(lost.contains(lost[0]));
    } else {
        assert forall|x: NodeId| #[trigger] targets.contains(x) implies live.contains(x) by {
            if !live.contains(x) {
                assert(lost.contains(x));
            }
        }
    }
}

/// **Survivors make progress.** Nodes may crash or be cut off: messages to and
/// from them are lost, and their votes are given away when their leases lapse.
/// Whenever everything between the `live` nodes has arrived, no vote of a live node
/// for the lock is left with a crashed one, and each live node can still reach a
/// quorum: if a live node wants the lock, some live node holds it.
pub proof fn law_survivors_make_progress(
    policy: QuorumPolicy,
    members: Seq<NodeId>,
    events: Seq<Event>,
    live: Set<NodeId>,
    lock: Seq<char>,
    p: NodeId,
) -> (holder: NodeId)
    requires
        members.no_duplicates(),
        spares(policy, members, events, live),
        lossless_among(events, live),
        after(policy, members, events).at_rest(live),
        forall|x: NodeId| #[trigger]
            members.contains(x) && live.contains(x) ==> (after(policy, members, events).arbiter(
                x,
                lock,
            ).voted_for matches Some(r) ==> live.contains(r.node)),
        forall|q: NodeId| #[trigger]
            members.contains(q) && live.contains(q) ==> can_reach_quorum(policy, members, live, q),
        members.contains(p),
        live.contains(p),
        after(policy, members, events).current(p, lock) is Some,
    ensures
        live.contains(holder),
        after(policy, members, events).holds(holder, lock),
{
    let c = after(policy, members, events);
    lemma_sane_after(policy, members, events);
    lemma_waits_after(policy, members, events, live);
    assert(wants(c, live, lock, c.members.index_of(p)));
    let first = lemma_first(c, live, lock, c.members.len() as int);
    let r = c.current(first, lock)->0;
    if exists|h: NodeId| live.contains(h) && #[trigger] c.holds(h, lock) {
        choose|h: NodeId| live.contains(h) && #[trigger] c.holds(h, lock)
    } else {
        assert(c.sane_node(first));
        let q = c.nodes[first].requester.map[lock];
        let f = |x: NodeId| live.contains(x);
        let targets = quorum_targets(policy, first, members);
        let reached = targets.filter(f);
        lemma_filter_no_duplicates(targets, f);
        lemma_targets_are_members(policy, first, members);
        assert forall|x: NodeId| #[trigger] reached.contains(x) implies q.votes.contains(x) by {
            assert(c.members.contains(x) && live.contains(x));
            assert(c.waits_well(lock, x, first, live.contains(x)));
            assert(c.link(first, x).len() == 0);
            assert(c.link(x, first).len() == 0);
            let a = c.arbiter(x, lock);
            assert(c.sane_node(x));
            assert(a.wf());
            if a.voted_for != Some(r) {
                assert(a.queue.contains(r));
                let v = a.voted_for->0;
                assert(arbiter_votee_member(c, x, lock));
                assert(live.contains(v.node));
                assert(c.waits_well(lock, x, v.node, live.contains(x)));
                assert(c.link(v.node, x).len() == 0);
                assert(c.link(x, v.node).len() == 0);
                assert(c.known_at(x, lock, v));
                assert(c.current(v.node, lock) == Some(v));
                assert(wants(c, live, lock, c.members.index_of(v.node)));
                assert(r.precedes(v));
                assert(c.preempts(lock, x));
                assert(a.inquired);
                assert(c.holds(v.node, lock));
            }
        }
        crate::quorum::lemma_grid_members(first, members);
        lemma_all_votes(reached, q.votes);
        assert(can_reach_quorum(policy, members, live, first));
        assert(c.holds(first, lock));
        first
    }
}

/// A votee belongs to a member.
spec fn arbiter_votee_member(c: ClusterView, x: NodeId, lock: Seq<char>) -> bool {
    c.arbiter(x, lock).voted_for matches Some(v) ==> c.members.contains(v.node) && c.made_fn()(v)
}

/// Whoever has every vote has as many votes as there are.
proof fn lemma_all_votes(targets: Seq<NodeId>, votes: Seq<NodeId>)
    requires
        targets.no_duplicates(),
        forall|x: NodeId| #[trigger] targets.contains(x) ==> votes.contains(x),
    ensures
        votes.len() >= targets.len(),
{
    targets.unique_seq_to_set();
    votes.lemma_cardinality_of_set();
    assert(targets.to_set().subset_of(votes.to_set()));
    vstd::set_lib::lemma_len_subset(targets.to_set(), votes.to_set());
}

} // verus!
