//! Fence tokens: a later holder's token is greater.
//!
//! A holder's token is known at its voters: each of them either still votes for
//! the holder or has recorded the token. A later holder needs the vote of one of
//! them, and a vote carries what the voter has recorded.
use vstd::prelude::*;

use crate::cluster::{
    after, count, is_about, leases_hold, lemma_concat_elements, lemma_count_positive,
    lemma_count_zero, lemma_leases_spare, lemma_sane_after, lemma_sane_with_link, lemma_sent_to,
    spares, ClusterView, Event,
};
use crate::exclusion::{
    lemma_handle_other_lock, lemma_one_holder, lemma_targets_are_members, lemma_voter_is_member,
    lemma_votes_after,
};
use crate::model::{
    arbiter_after, concat_over, lemma_vote_added, lemma_vote_removed, rebroadcast_fn, regrant_fn,
    renew_fn, revoke_fn, NodeView, RequesterView,
};
use crate::quorum::{is_quorum, law_quorums_intersect, QuorumPolicy};
use crate::types::{Fence, Instant, MessageKind, MessageView, NodeId, OutgoingView, RequestId};

verus! {

/// A token that was given out for a lock, and the quorum that knows it.
pub struct Past {
    pub lock: Seq<char>,
    pub token: Fence,
    /// The node whose quorum `voters` is.
    pub owner: NodeId,
    pub voters: Seq<NodeId>,
    /// The request that holds the lock with the token, where the voters may
    /// still be voting for it in place of having recorded the token.
    pub holder: Option<RequestId>,
    /// The requests that come after.
    pub later: spec_fn(RequestId) -> bool,
}

/// `b` is greater than `token`, or the largest token there is.
pub open spec fn above(b: Fence, token: Fence) -> bool {
    b > token || b == u64::MAX
}

/// The messages of the given kind about `r` carry at least `token`.
pub open spec fn carry(
    s: Seq<MessageView>,
    kind: MessageKind,
    lock: Seq<char>,
    r: RequestId,
    token: Fence,
) -> bool {
    forall|i: int|
        0 <= i < s.len() && is_about(#[trigger] s[i], kind, lock, r) ==> s[i].fence >= token
}

impl ClusterView {
    /// Voter `x` has recorded the token, or still votes for the holder.
    pub open spec fn voter_knows(self, h: Past, x: NodeId) -> bool {
        let a = self.arbiter(x, h.lock);
        a.fence_max >= h.token || (h.holder is Some && a.voted_for == h.holder)
    }

    /// The holder, while it holds, keeps its token and its votes, and takes
    /// leave of every node with its token.
    pub open spec fn holder_firm(self, h: Past, x: NodeId) -> bool {
        h.holder matches Some(r) ==> {
            &&& self.requester(h.owner, h.lock) matches Some(q) ==> (q.req == r ==> q.locked
                && q.best_fence == h.token)
            &&& h.voters.contains(x) ==> count(
                self.link(h.owner, x),
                MessageKind::Yield,
                h.lock,
                r,
            ) == 0
            &&& carry(self.link(h.owner, x), MessageKind::Release, h.lock, r, h.token)
        }
    }

    /// A vote of voter `x` for a later request of `q` brings the token along.
    pub open spec fn vote_brings_token(self, h: Past, q: NodeId, x: NodeId) -> bool {
        self.requester(q, h.lock) matches Some(t) ==> ((h.later)(t.req) ==> {
            &&& t.votes.contains(x) ==> t.best_fence >= h.token
            &&& carry(self.link(x, q), MessageKind::Grant, h.lock, t.req, h.token)
        })
    }

    /// A later request of `q` that holds the lock has a greater token.
    pub open spec fn outranks(self, h: Past, q: NodeId) -> bool {
        self.requester(q, h.lock) matches Some(t) ==> ((h.later)(t.req) && t.locked ==> above(
            t.best_fence,
            h.token,
        ))
    }

    /// Everything that makes later tokens greater than `h.token`.
    pub open spec fn remembers(self, h: Past) -> bool {
        &&& h.token >= 1
        &&& self.members.contains(h.owner)
        &&& is_quorum(self.policy, h.owner, self.members, h.voters)
        &&& h.holder matches Some(r) ==> r.node == h.owner && self.made(r) && !(h.later)(r)
        &&& forall|x: NodeId| #[trigger] h.voters.contains(x) ==> self.voter_knows(h, x)
        &&& forall|x: NodeId| #[trigger] self.members.contains(x) ==> self.holder_firm(h, x)
        &&& forall|q: NodeId| #[trigger] self.members.contains(q) ==> self.outranks(h, q)
        &&& forall|q: NodeId, x: NodeId| #[trigger]
            self.members.contains(q) && #[trigger] h.voters.contains(x) ==> self.vote_brings_token(
                h,
                q,
                x,
            )
    }
}

// ---- what a node's step does to tokens -------------------------------------------
/// Every vote that `out` gives away carries what the arbiter has recorded, and
/// goes to the request that has the vote.
pub open spec fn grants_carry(n: NodeView, out: Seq<OutgoingView>, lock: Seq<char>) -> bool {
    forall|j: int|
        0 <= j < out.len() && (#[trigger] out[j]).msg.kind is Grant && out[j].msg.lock == lock
            ==> out[j].msg.fence == n.arbiter_of(lock).fence_max && n.arbiter_of(lock).voted_for
            == Some(out[j].msg.req)
}

/// **Recorded tokens never fall**, whatever message arrives; and a vote that is
/// given away carries the recorded token.
pub proof fn law_handle_keeps_records(
    n: NodeView,
    now: Instant,
    from: NodeId,
    msg: MessageView,
    lock: Seq<char>,
)
    requires
        n.wf(),
        n.outbox.len() == 0,
    ensures
        n.handle(now, from, msg).arbiter_of(lock).fence_max >= n.arbiter_of(lock).fence_max,
        grants_carry(n.handle(now, from, msg), n.handle(now, from, msg).outbox, lock),
{
    if msg.lock != lock {
        lemma_handle_other_lock(n, now, from, msg, lock);
    }
}

/// **Recorded tokens never fall** as time passes: leases lapse and entries are
/// forgotten, but not one that has recorded a token. A vote that moves on
/// carries the recorded token.
pub proof fn law_tick_keeps_records(n: NodeView, now: Instant, lock: Seq<char>)
    requires
        n.wf(),
        n.outbox.len() == 0,
    ensures
        n.tick(now).arbiter_of(lock).fence_max == n.arbiter_of(lock).fence_max,
        grants_carry(n.tick(now), n.tick(now).outbox, lock),
{
    let t = n.tick(now);
    let out = t.outbox;
    let a = concat_over(n.arbiter.keys, revoke_fn(n.arbiter, now));
    let b = concat_over(n.arbiter.keys, regrant_fn(n.arbiter, now));
    let e = concat_over(n.requester.keys, renew_fn(n.requester, now));
    let f = concat_over(n.requester.keys, rebroadcast_fn(n.requester, n.targets(), now));
    assert(out =~= a + b + e + f);
    assert forall|j: int|
        0 <= j < out.len() && (#[trigger] out[j]).msg.kind is Grant && out[j].msg.lock
            == lock implies out[j].msg.fence == t.arbiter_of(lock).fence_max && t.arbiter_of(
        lock,
    ).voted_for == Some(out[j].msg.req) by {
        if j < a.len() {
            let g = revoke_fn(n.arbiter, now);
            let k = lemma_concat_elements(n.arbiter.keys, g, j);
            assert(g(k)[g(k).index_of(out[j])] == out[j]);
        } else if j < a.len() + b.len() {
            let g = regrant_fn(n.arbiter, now);
            let k = lemma_concat_elements(n.arbiter.keys, g, j - a.len());
            assert(g(k)[g(k).index_of(out[j])] == out[j]);
            assert(k == lock);
            assert(n.arbiter.map.contains_key(lock));
            let after_lapse = arbiter_after(n.arbiter.map[lock], now);
            assert(!after_lapse.idle());
            assert(t.arbiter.map.contains_key(lock));
        } else if j < a.len() + b.len() + e.len() {
            let g = renew_fn(n.requester, now);
            let k = lemma_concat_elements(n.requester.keys, g, j - a.len() - b.len());
            assert(g(k)[g(k).index_of(out[j])] == out[j]);
        } else {
            let g = rebroadcast_fn(n.requester, n.targets(), now);
            let k = lemma_concat_elements(n.requester.keys, g, j - a.len() - b.len() - e.len());
            assert(g(k)[g(k).index_of(out[j])] == out[j]);
        }
    }
}

/// The passing of time leaves a request as it is, but for its next renewal, and
/// sends neither yields nor releases.
proof fn lemma_tick_requester(n: NodeView, now: Instant, lock: Seq<char>)
    requires
        n.wf(),
        n.outbox.len() == 0,
    ensures
        n.requester.get(lock) is None ==> n.tick(now).requester.get(lock) is None,
        n.requester.get(lock) matches Some(q) ==> n.tick(now).requester.get(lock) == Some(
            RequesterView { next_renew: n.tick(now).requester.map[lock].next_renew, ..q },
        ),
        forall|j: int|
            0 <= j < n.tick(now).outbox.len() ==> !((#[trigger] n.tick(
                now,
            ).outbox[j]).msg.kind is Yield) && !(n.tick(now).outbox[j].msg.kind is Release),
{
    let t = n.tick(now);
    let out = t.outbox;
    let a = concat_over(n.arbiter.keys, revoke_fn(n.arbiter, now));
    let b = concat_over(n.arbiter.keys, regrant_fn(n.arbiter, now));
    let e = concat_over(n.requester.keys, renew_fn(n.requester, now));
    let f = concat_over(n.requester.keys, rebroadcast_fn(n.requester, n.targets(), now));
    assert(out =~= a + b + e + f);
    assert forall|j: int| 0 <= j < out.len() implies !((#[trigger] out[j]).msg.kind is Yield) && !(
    out[j].msg.kind is Release) by {
        if j < a.len() {
            let g = revoke_fn(n.arbiter, now);
            let k = lemma_concat_elements(n.arbiter.keys, g, j);
            assert(g(k)[g(k).index_of(out[j])] == out[j]);
        } else if j < a.len() + b.len() {
            let g = regrant_fn(n.arbiter, now);
            let k = lemma_concat_elements(n.arbiter.keys, g, j - a.len());
            assert(g(k)[g(k).index_of(out[j])] == out[j]);
        } else if j < a.len() + b.len() + e.len() {
            let g = renew_fn(n.requester, now);
            let k = lemma_concat_elements(n.requester.keys, g, j - a.len() - b.len());
            assert(g(k)[g(k).index_of(out[j])] == out[j]);
        } else {
            let g = rebroadcast_fn(n.requester, n.targets(), now);
            let k = lemma_concat_elements(n.requester.keys, g, j - a.len() - b.len() - e.len());
            assert(g(k)[g(k).index_of(out[j])] == out[j]);
        }
    }
}

// ---- the cluster keeps remembering -------------------------------------------------
/// What is under way on a link after a step: what was, and what was sent.
proof fn lemma_flushed_link(c: ClusterView, a: NodeId, n: NodeView, s: NodeId, t: NodeId, i: int) -> (j:
    int)
    requires
        0 <= i < c.flushed(a, n).link(s, t).len(),
    ensures
        i < c.link(s, t).len() ==> c.flushed(a, n).link(s, t)[i] == c.link(s, t)[i],
        i >= c.link(s, t).len() ==> s == a && 0 <= j < n.outbox.len() && n.outbox[j].to == t
            && n.outbox[j].msg == c.flushed(a, n).link(s, t)[i],
{
    if i >= c.link(s, t).len() {
        lemma_sent_to(n.outbox, t, i - c.link(s, t).len())
    } else {
        0
    }
}

/// Taking a message off a link forgets nothing.
proof fn lemma_remembers_remove(c: ClusterView, from: NodeId, to: NodeId, k: int, h: Past)
    requires
        c.remembers(h),
        0 <= k < c.link(from, to).len(),
    ensures
        c.with_link(from, to, c.link(from, to).remove(k)).remembers(h),
{
    let d = c.with_link(from, to, c.link(from, to).remove(k));
    assert forall|x: NodeId| #[trigger] h.voters.contains(x) implies d.voter_knows(h, x) by {
        assert(c.voter_knows(h, x));
    }
    assert forall|x: NodeId| #[trigger] d.members.contains(x) implies d.holder_firm(h, x) by {
        assert(c.holder_firm(h, x));
        if let Some(r) = h.holder {
            let s = c.link(h.owner, x);
            if from == h.owner && to == x {
                crate::cluster::lemma_count_remove(s, k, MessageKind::Yield, h.lock, r);
                lemma_carry_remove(s, k, MessageKind::Release, h.lock, r, h.token);
            }
        }
    }
    assert forall|q: NodeId| #[trigger] d.members.contains(q) implies d.outranks(h, q) by {
        assert(c.outranks(h, q));
    }
    assert forall|q: NodeId, x: NodeId| #[trigger]
        d.members.contains(q) && #[trigger] h.voters.contains(x) implies d.vote_brings_token(
        h,
        q,
        x,
    ) by {
        assert(c.vote_brings_token(h, q, x));
        if let Some(t) = c.requester(q, h.lock) {
            if (h.later)(t.req) && from == x && to == q {
                lemma_carry_remove(
                    c.link(x, q),
                    k,
                    MessageKind::Grant,
                    h.lock,
                    t.req,
                    h.token,
                );
            }
        }
    }
}

/// The messages that are left carry what they carried.
proof fn lemma_carry_remove(
    s: Seq<MessageView>,
    k: int,
    kind: MessageKind,
    lock: Seq<char>,
    r: RequestId,
    token: Fence,
)
    requires
        carry(s, kind, lock, r, token),
        0 <= k < s.len(),
    ensures
        carry(s.remove(k), kind, lock, r, token),
{
    let t = s.remove(k);
    assert forall|i: int|
        0 <= i < t.len() && is_about(#[trigger] t[i], kind, lock, r) implies t[i].fence
        >= token by {
        if i < k {
            assert(t[i] == s[i]);
        } else {
            assert(t[i] == s[i + 1]);
        }
    }
}

/// What a node's step has to respect so that nothing is forgotten.
pub open spec fn step_respects(c: ClusterView, a: NodeId, n: NodeView, h: Past) -> bool {
    let m = c.nodes[a];
    let old_arbiter = m.arbiter_of(h.lock);
    let new_arbiter = n.arbiter_of(h.lock);
    // recorded tokens do not fall, and the holder's vote is not given away
    // before its token is recorded
    &&& new_arbiter.fence_max >= old_arbiter.fence_max
    &&& h.voters.contains(a) && h.holder is Some && old_arbiter.voted_for == h.holder
        ==> new_arbiter.voted_for == h.holder || new_arbiter.fence_max >= h.token
    &&& grants_carry(
        n,
        n.outbox,
        h.lock,
    )
    // the holder stays firm
    &&& h.holder matches Some(r) ==> (a == h.owner ==> {
        &&& n.requester.get(h.lock) matches Some(q) ==> (q.req == r ==> q.locked && q.best_fence
            == h.token)
        &&& forall|j: int|
            0 <= j < n.outbox.len() ==> !is_about(
                (#[trigger] n.outbox[j]).msg,
                MessageKind::Yield,
                h.lock,
                r,
            ) && (is_about(n.outbox[j].msg, MessageKind::Release, h.lock, r)
                ==> n.outbox[j].msg.fence >= h.token)
    })
    // a later request counts votes with the token they bring
    &&& n.requester.get(h.lock) matches Some(t) ==> ((h.later)(t.req) ==> {
        &&& t.locked ==> above(t.best_fence, h.token)
        &&& forall|x: NodeId| #[trigger]
            h.voters.contains(x) && t.votes.contains(x) ==> t.best_fence >= h.token
        &&& m.request_of(h.lock) == Some(t.req) || !c.made(t.req)
    })
}

/// A step that respects the past forgets nothing.
proof fn lemma_remembers_flushed(c: ClusterView, a: NodeId, n: NodeView, h: Past)
    requires
        c.sane(),
        c.remembers(h),
        c.members.contains(a),
        n.lamport >= c.nodes[a].lamport,
        step_respects(c, a, n, h),
    ensures
        c.flushed(a, n).remembers(h),
{
    let d = c.flushed(a, n);
    let l = h.lock;
    assert(c.sane_node(h.owner));
    lemma_targets_are_members(c.policy, h.owner, c.members);
    assert forall|x: NodeId| #[trigger] h.voters.contains(x) implies d.voter_knows(h, x) by {
        assert(c.voter_knows(h, x));
    }
    assert forall|x: NodeId| #[trigger] d.members.contains(x) implies d.holder_firm(h, x) by {
        assert(c.holder_firm(h, x));
        if let Some(r) = h.holder {
            let s = d.link(h.owner, x);
            lemma_count_zero(s, MessageKind::Yield, l, r);
            lemma_count_zero(c.link(h.owner, x), MessageKind::Yield, l, r);
            if h.voters.contains(x) {
                assert forall|i: int| 0 <= i < s.len() implies !is_about(
                    #[trigger] s[i],
                    MessageKind::Yield,
                    l,
                    r,
                ) by {
                    let j = lemma_flushed_link(c, a, n, h.owner, x, i);
                    if i < c.link(h.owner, x).len() {
                        assert(!is_about(c.link(h.owner, x)[i], MessageKind::Yield, l, r));
                    } else {
                        assert(!is_about(n.outbox[j].msg, MessageKind::Yield, l, r));
                    }
                }
            }
            assert forall|i: int|
                0 <= i < s.len() && is_about(
                    #[trigger] s[i],
                    MessageKind::Release,
                    l,
                    r,
                ) implies s[i].fence >= h.token by {
                let j = lemma_flushed_link(c, a, n, h.owner, x, i);
                if i < c.link(h.owner, x).len() {
                    assert(is_about(c.link(h.owner, x)[i], MessageKind::Release, l, r));
                } else {
                    assert(is_about(n.outbox[j].msg, MessageKind::Release, l, r));
                }
            }
        }
    }
    assert forall|q: NodeId| #[trigger] d.members.contains(q) implies d.outranks(h, q) by {
        assert(c.outranks(h, q));
    }
    assert forall|q: NodeId, x: NodeId| #[trigger]
        d.members.contains(q) && #[trigger] h.voters.contains(x) implies d.vote_brings_token(
        h,
        q,
        x,
    ) by {
        assert(c.members.contains(x));
        assert(c.vote_brings_token(h, q, x));
        assert(d.voter_knows(h, x));
        if let Some(t) = d.requester(q, l) {
            if (h.later)(t.req) {
                let s = d.link(x, q);
                assert forall|i: int|
                    0 <= i < s.len() && is_about(
                        #[trigger] s[i],
                        MessageKind::Grant,
                        l,
                        t.req,
                    ) implies s[i].fence >= h.token by {
                    let j = lemma_flushed_link(c, a, n, x, q, i);
                    if i < c.link(x, q).len() {
                        if c.requester(q, l) is Some && c.requester(q, l)->0.req == t.req {
                            assert(is_about(c.link(x, q)[i], MessageKind::Grant, l, t.req));
                        } else {
                            assert(!c.made(t.req));
                            assert(c.sane_link(x, q));
                        }
                    } else {
                        assert(n.outbox[j].msg.kind is Grant);
                    }
                }
            }
        }
    }
}

/// A vote that arrives at node `to` respects the past.
proof fn lemma_grant_respects(c: ClusterView, from: NodeId, to: NodeId, msg: MessageView, h: Past)
    requires
        c.sane(),
        c.remembers(h),
        c.members.contains(to),
        msg.kind is Grant,
        msg.lock == h.lock,
        c.nodes[to].accepts(from, msg),
        // the message was on its way
        h.voters.contains(from) && c.requester(to, h.lock) is Some && c.requester(
            to,
            h.lock,
        )->0.req == msg.req && (h.later)(msg.req) ==> msg.fence >= h.token,
    ensures
        step_respects(c, to, c.nodes[to].on_grant(from, msg.lock, msg.req, msg.fence), h),
{
    let m = c.nodes[to];
    let l = h.lock;
    let req = msg.req;
    let n = m.on_grant(from, l, req, msg.fence);
    assert(c.sane_node(to));
    assert(c.sane_node(h.owner));
    assert(c.holder_firm(h, to));
    assert(c.outranks(h, to));
    if m.targets().contains(from) && m.request_of(l) == Some(req) {
        let t = m.requester.map[l];
        let t2 = n.requester.map[l];
        lemma_vote_added(t.votes, from);
        if (h.later)(req) {
            assert forall|x: NodeId| #[trigger]
                h.voters.contains(x) && t2.votes.contains(x) implies t2.best_fence >= h.token by {
                assert(c.vote_brings_token(h, to, x));
            }
            if t2.locked && !t.locked {
                assert(is_quorum(c.policy, to, c.members, t2.votes));
                let x = law_quorums_intersect(
                    c.policy,
                    c.members,
                    to,
                    t2.votes,
                    h.owner,
                    h.voters,
                );
                assert(c.vote_brings_token(h, to, x));
            }
        }
    }
    assert forall|x: NodeId| #[trigger] h.voters.contains(x) implies c.vote_brings_token(
        h,
        to,
        x,
    ) by {}
}

/// A delivered message respects the past.
proof fn lemma_handle_respects(
    c: ClusterView,
    from: NodeId,
    to: NodeId,
    now: Instant,
    h: Past,
)
    requires
        c.sane(),
        c.remembers(h),
        c.members.contains(to),
        c.link(from, to).len() > 0,
    ensures
        ({
            let link = c.link(from, to);
            step_respects(
                c.with_link(from, to, link.remove(0)),
                to,
                c.nodes[to].handle(now, from, link[0]),
                h,
            )
        }),
{
    let link = c.link(from, to);
    let msg = link[0];
    let b = c.with_link(from, to, link.remove(0));
    let m = c.nodes[to];
    let n = m.handle(now, from, msg);
    let l = h.lock;
    let req = msg.req;
    lemma_sane_with_link(c, from, to, 0);
    lemma_remembers_remove(c, from, to, 0, h);
    assert(c.sane_node(to));
    assert(b.sane_node(to));
    law_handle_keeps_records(m, now, from, msg, l);
    assert(c.holder_firm(h, to));
    assert(b.outranks(h, to));
    assert forall|x: NodeId| #[trigger] h.voters.contains(x) implies b.vote_brings_token(
        h,
        to,
        x,
    ) by {}
    if msg.lock != l {
        lemma_handle_other_lock(m, now, from, msg, l);
    } else if m.accepts(from, msg) {
        assert(m.arbiter_of(l).wf());
        match msg.kind {
            MessageKind::Grant => {
                if h.voters.contains(from) {
                    assert(c.vote_brings_token(h, to, from));
                    assert(is_about(link[0], MessageKind::Grant, l, req));
                }
                lemma_grant_respects(b, from, to, msg, h);
            },
            MessageKind::Yield => {
                if h.voters.contains(to) && h.holder == Some(req) {
                    assert(from == h.owner);
                    assert(c.holder_firm(h, to));
                    lemma_count_positive(link, 0, MessageKind::Yield, l, req);
                }
            },
            MessageKind::Release => {
                if h.voters.contains(to) && h.holder == Some(req) {
                    assert(from == h.owner);
                    assert(is_about(link[0], MessageKind::Release, l, req));
                }
            },
            MessageKind::Inquire => {
                if m.request_of(l) == Some(req) {
                    lemma_vote_removed(m.requester.map[l].votes, from);
                }
            },
            MessageKind::Revoked => {
                if m.request_of(l) == Some(req) {
                    lemma_vote_removed(m.requester.map[l].votes, from);
                }
            },
            _ => {},
        }
    }
}

/// Every event keeps the past in memory; where a holder is remembered by votes
/// in place of records, leases have to hold.
pub proof fn lemma_remembers_next(c: ClusterView, e: Event, h: Past)
    requires
        c.sane(),
        c.remembers(h),
        h.holder is Some ==> c.leases_hold(e),
    ensures
        c.next(e).remembers(h),
{
    let l = h.lock;
    match e {
        Event::Request { node, now, lock } => {
            if c.members.contains(node) && c.nodes[node].lamport < u64::MAX {
                let m = c.nodes[node];
                let n = m.request(now, lock);
                assert(c.sane_node(node));
                assert(c.outranks(h, node));
                assert(c.holder_firm(h, node));
                assert forall|x: NodeId| #[trigger] h.voters.contains(x) implies c.vote_brings_token(
                    h,
                    node,
                    x,
                ) by {}
                assert(!c.made(m.next_request()));
                assert(step_respects(c, node, n, h));
                lemma_remembers_flushed(c, node, n, h);
            }
        },
        Event::Release { node, lock } => {
            if c.members.contains(node) {
                let m = c.nodes[node];
                let n = m.release(lock);
                assert(c.sane_node(node));
                assert(c.outranks(h, node));
                assert(c.holder_firm(h, node));
                assert forall|x: NodeId| #[trigger] h.voters.contains(x) implies c.vote_brings_token(
                    h,
                    node,
                    x,
                ) by {}
                assert(step_respects(c, node, n, h));
                lemma_remembers_flushed(c, node, n, h);
            }
        },
        Event::Deliver { from, to, now } => {
            if c.members.contains(to) && c.link(from, to).len() > 0 {
                let link = c.link(from, to);
                let b = c.with_link(from, to, link.remove(0));
                lemma_sane_with_link(c, from, to, 0);
                lemma_remembers_remove(c, from, to, 0, h);
                lemma_handle_respects(c, from, to, now, h);
                lemma_remembers_flushed(b, to, c.nodes[to].handle(now, from, link[0]), h);
            }
        },
        Event::Lose { from, to, index } => {
            if 0 <= index < c.link(from, to).len() {
                lemma_remembers_remove(c, from, to, index, h);
            }
        },
        Event::Tick { node, now } => {
            if c.members.contains(node) {
                let m = c.nodes[node];
                let n = m.tick(now);
                assert(c.sane_node(node));
                assert(c.outranks(h, node));
                assert(c.holder_firm(h, node));
                assert forall|x: NodeId| #[trigger] h.voters.contains(x) implies c.vote_brings_token(
                    h,
                    node,
                    x,
                ) by {}
                law_tick_keeps_records(m, now, l);
                lemma_tick_requester(m, now, l);
                if h.holder is Some {
                    crate::exclusion::lemma_quiet_tick(m, now, l);
                }
                assert(step_respects(c, node, n, h));
                lemma_remembers_flushed(c, node, n, h);
            }
        },
    }
}

/// A cluster in which `p` holds a lock remembers its token by the votes.
proof fn lemma_holder_remembered(c: ClusterView, lock: Seq<char>, p: NodeId)
    requires
        c.sane(),
        c.votes_in_one_place(Set::full()),
        c.holds(p, lock),
    ensures
        c.remembers(holder_past(c, lock, p)),
{
    let h = holder_past(c, lock, p);
    let t = c.nodes[p].requester.map[lock];
    let r = t.req;
    assert(c.sane_node(p));
    assert forall|x: NodeId| #[trigger] h.voters.contains(x) implies c.voter_knows(h, x)
        && c.members.contains(x) && c.arbiter(x, lock).voted_for == Some(r) by {
        lemma_voter_is_member(c, lock, p, x);
        assert(c.vote_in_one_place(lock, x, p));
    }
    assert forall|x: NodeId| #[trigger] c.members.contains(x) implies c.holder_firm(h, x) by {
        assert(c.vote_in_one_place(lock, x, p));
        lemma_count_zero(c.link(p, x), MessageKind::Release, lock, r);
    }
    assert forall|q: NodeId| #[trigger] c.members.contains(q) implies c.outranks(h, q) by {
        if c.holds(q, lock) {
            lemma_one_holder(c, Set::full(), lock, p, q);
        }
    }
    assert forall|q: NodeId, x: NodeId| #[trigger]
        c.members.contains(q) && #[trigger] h.voters.contains(x) implies c.vote_brings_token(
        h,
        q,
        x,
    ) by {
        assert(c.members.contains(x));
        assert(c.vote_in_one_place(lock, x, q));
        if let Some(u) = c.requester(q, lock) {
            lemma_count_zero(c.link(x, q), MessageKind::Grant, lock, u.req);
        }
    }
    assert(c.made(r));
}

/// The token with which `p` holds `lock`, as a piece of the past.
pub open spec fn holder_past(c: ClusterView, lock: Seq<char>, p: NodeId) -> Past {
    let t = c.nodes[p].requester.map[lock];
    Past {
        lock,
        token: t.best_fence,
        owner: p,
        voters: t.votes,
        holder: Some(t.req),
        later: |s: RequestId| s != t.req,
    }
}

/// What is remembered after the first `k` events is remembered after all.
proof fn lemma_remembers_after(
    policy: QuorumPolicy,
    members: Seq<NodeId>,
    events: Seq<Event>,
    k: int,
    h: Past,
)
    requires
        members.no_duplicates(),
        0 <= k <= events.len(),
        after(policy, members, events.take(k)).remembers(h),
        h.holder is Some ==> leases_hold(policy, members, events),
    ensures
        after(policy, members, events).remembers(h),
    decreases events.len(),
{
    if k == events.len() {
        assert(events.take(k) =~= events);
    } else {
        let init = events.drop_last();
        assert(init.take(k) =~= events.take(k));
        lemma_remembers_after(policy, members, init, k, h);
        lemma_sane_after(policy, members, init);
        lemma_remembers_next(after(policy, members, init), events.last(), h);
    }
}

/// Leases that hold throughout hold at first.
pub proof fn lemma_leases_prefix(
    policy: QuorumPolicy,
    members: Seq<NodeId>,
    events: Seq<Event>,
    k: int,
)
    requires
        0 <= k <= events.len(),
        leases_hold(policy, members, events),
    ensures
        leases_hold(policy, members, events.take(k)),
    decreases events.len(),
{
    if k == events.len() {
        assert(events.take(k) =~= events);
    } else {
        assert(events.drop_last().take(k) =~= events.take(k));
        lemma_leases_prefix(policy, members, events.drop_last(), k);
    }
}

/// **Fence tokens increase.** If `p` holds a lock after the first `k` events
/// and, after all events, `q` holds it under another request, then the token of
/// `q` is greater: as long as no lease lapses, and up to the largest token there
/// is. Messages may be delayed at will and lost.
pub proof fn law_fence_tokens_increase(
    policy: QuorumPolicy,
    members: Seq<NodeId>,
    events: Seq<Event>,
    k: int,
    lock: Seq<char>,
    p: NodeId,
    q: NodeId,
)
    requires
        members.no_duplicates(),
        0 <= k <= events.len(),
        leases_hold(policy, members, events),
        after(policy, members, events.take(k)).holds(p, lock),
        after(policy, members, events).holds(q, lock),
        after(policy, members, events.take(k)).nodes[p].requester.map[lock].req != after(
            policy,
            members,
            events,
        ).nodes[q].requester.map[lock].req,
        after(policy, members, events.take(k)).nodes[p].requester.map[lock].best_fence
            < u64::MAX,
    ensures
        after(policy, members, events).nodes[q].requester.map[lock].best_fence > after(
            policy,
            members,
            events.take(k),
        ).nodes[p].requester.map[lock].best_fence,
{
    let c = after(policy, members, events.take(k));
    let d = after(policy, members, events);
    lemma_leases_prefix(policy, members, events, k);
    lemma_sane_after(policy, members, events.take(k));
    lemma_leases_spare(policy, members, events.take(k), Set::full());
    lemma_votes_after(policy, members, events.take(k), Set::full());
    lemma_sane_after(policy, members, events);
    lemma_holder_remembered(c, lock, p);
    let h = holder_past(c, lock, p);
    lemma_remembers_after(policy, members, events, k, h);
    assert(d.outranks(h, q));
}

/// **A recorded token is a backstop.** Once every arbiter of a quorum has
/// recorded `token` for a lock, a request made from then on that acquires the
/// lock gets a greater token, up to the largest there is: whatever leases lapse
/// and whatever is lost.
pub proof fn law_recorded_token_backstop(
    policy: QuorumPolicy,
    members: Seq<NodeId>,
    events: Seq<Event>,
    k: int,
    lock: Seq<char>,
    token: Fence,
    owner: NodeId,
    voters: Seq<NodeId>,
    q: NodeId,
)
    requires
        members.no_duplicates(),
        0 <= k <= events.len(),
        members.contains(owner),
        is_quorum(policy, owner, members, voters),
        1 <= token < u64::MAX,
        forall|x: NodeId| #[trigger]
            voters.contains(x) ==> after(policy, members, events.take(k)).arbiter(
                x,
                lock,
            ).fence_max >= token,
        after(policy, members, events).holds(q, lock),
        !after(policy, members, events.take(k)).made(
            after(policy, members, events).nodes[q].requester.map[lock].req,
        ),
    ensures
        after(policy, members, events).nodes[q].requester.map[lock].best_fence > token,
{
    let c = after(policy, members, events.take(k));
    let d = after(policy, members, events);
    lemma_sane_after(policy, members, events.take(k));
    lemma_sane_after(policy, members, events);
    let h = Past {
        lock,
        token,
        owner,
        voters,
        holder: None,
        later: |s: RequestId| !c.made(s),
    };
    assert(c.remembers(h)) by {
        assert forall|r: NodeId| #[trigger] c.members.contains(r) implies (c.requester(
            r,
            lock,
        ) matches Some(t) ==> c.made(t.req)) by {
            assert(c.sane_node(r));
        }
    }
    lemma_remembers_after(policy, members, events, k, h);
    assert(d.outranks(h, q));
}

impl ClusterView {
    /// Each voter of the holder `p` has recorded its token and still votes for it.
    pub open spec fn confirmed(self, p: NodeId, lock: Seq<char>) -> bool {
        let t = self.nodes[p].requester.map[lock];
        forall|x: NodeId| #[trigger]
            t.votes.contains(x) ==> self.arbiter(x, lock).voted_for == Some(t.req) && self.arbiter(
                x,
                lock,
            ).fence_max >= t.best_fence
    }
}

/// **A confirmed token survives failover.** If `p` holds a lock after the first `k`
/// events, and each of its voters has recorded its token while still voting for it,
/// then whoever holds the lock later under another request has a greater token, up
/// to the largest there is: `p` may crash, leases may lapse and messages be lost. Of
/// the later holder it is asked that no vote was taken from it before that.
pub proof fn law_confirmed_token_survives_failover(
    policy: QuorumPolicy,
    members: Seq<NodeId>,
    events: Seq<Event>,
    k: int,
    live: Set<NodeId>,
    lock: Seq<char>,
    p: NodeId,
    q: NodeId,
)
    requires
        members.no_duplicates(),
        0 <= k <= events.len(),
        spares(policy, members, events.take(k), live),
        live.contains(q),
        after(policy, members, events.take(k)).holds(p, lock),
        after(policy, members, events.take(k)).confirmed(p, lock),
        after(policy, members, events).holds(q, lock),
        after(policy, members, events.take(k)).nodes[p].requester.map[lock].req != after(
            policy,
            members,
            events,
        ).nodes[q].requester.map[lock].req,
        after(policy, members, events.take(k)).nodes[p].requester.map[lock].best_fence
            < u64::MAX,
    ensures
        after(policy, members, events).nodes[q].requester.map[lock].best_fence > after(
            policy,
            members,
            events.take(k),
        ).nodes[p].requester.map[lock].best_fence,
{
    let c = after(policy, members, events.take(k));
    let d = after(policy, members, events);
    let t = c.nodes[p].requester.map[lock];
    lemma_sane_after(policy, members, events.take(k));
    lemma_sane_after(policy, members, events);
    lemma_votes_after(policy, members, events.take(k), live);
    let h = Past {
        lock,
        token: t.best_fence,
        owner: p,
        voters: t.votes,
        holder: None,
        later: |s: RequestId| s.node == q && s != t.req,
    };
    assert(c.sane_node(p));
    assert(d.sane_node(q));
    assert forall|x: NodeId| #[trigger] h.voters.contains(x) implies c.members.contains(x) by {
        lemma_voter_is_member(c, lock, p, x);
    }
    assert forall|y: NodeId| #[trigger] c.members.contains(y) implies c.outranks(h, y) by {
        assert(c.sane_node(y));
        if let Some(u) = c.requester(y, lock) {
            if (h.later)(u.req) && u.locked {
                assert(is_quorum(c.policy, y, c.members, u.votes));
                let x = law_quorums_intersect(c.policy, c.members, p, t.votes, y, u.votes);
                assert(h.voters.contains(x));
                assert(c.vote_in_one_place(lock, x, y));
            }
        }
    }
    assert forall|y: NodeId, x: NodeId| #[trigger]
        c.members.contains(y) && #[trigger] h.voters.contains(x) implies c.vote_brings_token(
        h,
        y,
        x,
    ) by {
        assert(c.sane_node(y));
        assert(c.members.contains(x));
        if let Some(u) = c.requester(y, lock) {
            if (h.later)(u.req) {
                assert(c.vote_in_one_place(lock, x, y));
                lemma_count_zero(c.link(x, y), MessageKind::Grant, lock, u.req);
            }
        }
    }
    lemma_remembers_after(policy, members, events, k, h);
    assert(d.outranks(h, q));
}

} // verus!
