//! How a node conducts itself: what it says and does when it is asked for a vote, given
//! one, told that one is lost, and when time passes.
//!
//! Each law speaks of what goes in and what comes out: the votes, leases and tokens that
//! a node has before and after, and the messages that it sends.
use vstd::prelude::*;

use crate::cluster::lemma_concat_elements;
use crate::model::{
    concat_over, lemma_smallest, rebroadcast_fn, regrant_fn, renew_fn, revoke_fn, smallest,
    ArbiterView, NodeView,
};
use crate::quorum::{lemma_grid_members, lemma_grid_side_fits, QuorumPolicy};
use crate::types::{
    Fence, Instant, MessageKind, MessageView, NodeId, OutgoingView, RequestId, LEASE,
    RENEW_INTERVAL,
};

verus! {

/// A message to `to`.
pub open spec fn note(
    to: NodeId,
    kind: MessageKind,
    lock: Seq<char>,
    req: RequestId,
    fence: Fence,
) -> OutgoingView {
    OutgoingView { to, msg: MessageView { kind, lock, req, fence } }
}

/// `r` is one of the waiting requests, and no other was made earlier; of two that were
/// made at one time, the one of the smaller node counts as earlier.
pub open spec fn is_earliest(waiting: Set<RequestId>, r: RequestId) -> bool {
    &&& waiting.contains(r)
    &&& forall|s: RequestId| #[trigger]
        waiting.contains(s) ==> r.ts < s.ts || (r.ts == s.ts && r.node <= s.node)
}

/// The earliest waiting request is the one that is served.
proof fn lemma_earliest(waiting: Set<RequestId>, r: RequestId)
    requires
        waiting.finite(),
        is_earliest(waiting, r),
    ensures
        smallest(waiting) == r,
        waiting.len() > 0,
        !(waiting =~= Set::empty()),
{
    lemma_smallest_of(waiting, r);
    let m = smallest(waiting);
    assert(waiting.contains(m));
}

proof fn lemma_smallest_of(waiting: Set<RequestId>, r: RequestId)
    requires
        waiting.finite(),
        waiting.contains(r),
    ensures
        waiting.len() > 0,
        is_earliest(waiting, smallest(waiting)),
{
    if waiting.len() == 0 {
        assert(waiting =~= Set::empty());
    }
    lemma_smallest(waiting);
}

// ---- asking for votes -----------------------------------------------------------------------------
/// **Leases outlast renewals.** A vote is good for ten thousand units of time and renewed
/// every two thousand, so that several renewals may be lost.
pub proof fn law_leases_outlast_renewals()
    ensures
        LEASE == 10_000,
        RENEW_INTERVAL == 2_000,
        4 * RENEW_INTERVAL < LEASE,
{
}

/// **Whom a node asks.** By majority it asks every member and needs more than half of
/// them, and no more than that. By grid it needs everybody whom it asks, itself among them:
/// the members that share a row or a column with it in the smallest square that holds all.
pub proof fn law_whom_a_node_asks(n: NodeView)
    requires
        n.wf(),
    ensures
        n.targets().no_duplicates(),
        n.targets().contains(n.id),
        forall|m: NodeId| #[trigger] n.targets().contains(m) ==> n.members.contains(m),
        0 < n.threshold() <= n.targets().len(),
        n.policy is Majority ==> n.targets() == n.members && 2 * n.threshold() > n.members.len()
            && 2 * (n.threshold() - 1) <= n.members.len(),
        n.policy is Grid ==> n.threshold() == n.targets().len() && exists|side: int| #[trigger]
            shares_lines(n, side),
{
    if n.policy is Grid {
        lemma_grid_members(n.id, n.members);
        let side = crate::quorum::grid_side(n.members.len());
        assert(n.members.len() > 0) by {
            assert(n.members[n.members.index_of(n.id)] == n.id);
        }
        lemma_grid_side_fits(n.members.len());
        let smaller: nat = (side - 1) as nat;
        assert(smaller * smaller < n.members.len());
        assert((side - 1) * (side - 1) < n.members.len());
        assert forall|k: int| 0 <= k < n.members.len() implies (n.targets().contains(
            #[trigger] n.members[k],
        ) <==> (k / side as int == n.members.index_of(n.id) / side as int || k % side as int
            == n.members.index_of(n.id) % side as int)) by {}
        assert(shares_lines(n, side as int));
    } else {
        assert(n.members[n.members.index_of(n.id)] == n.id);
    }
}

/// The targets are the members in the node's row and column of a square with that side,
/// the smallest that holds all.
pub open spec fn shares_lines(n: NodeView, side: int) -> bool {
    let at = n.members.index_of(n.id);
    &&& side > 0
    &&& (side - 1) * (side - 1) < n.members.len() <= side * side
    &&& forall|k: int|
        0 <= k < n.members.len() ==> (n.targets().contains(#[trigger] n.members[k]) <==> (k / side
            == at / side || k % side == at % side))
}

/// **A request goes to every target.** It is the node's own, newer than all that the node
/// has seen; nothing else is sent, and the node has no vote yet. A lock that is wanted
/// already is not requested again.
pub proof fn law_requests_go_to_every_target(n: NodeView, now: Instant, lock: Seq<char>)
    requires
        n.wf(),
        n.lamport < u64::MAX,
        now + RENEW_INTERVAL <= u64::MAX,
    ensures
        ({
            let m = n.request(now, lock);
            if n.request_of(lock) is Some {
                m == n
            } else {
                &&& m.request_of(lock) matches Some(r) && r.node == n.id && r.ts == n.lamport + 1
                    && m.lamport == r.ts && m.outbox.len() == n.outbox.len() + n.targets().len()
                    && forall|i: int|
                    0 <= i < n.targets().len() ==> #[trigger] m.outbox[n.outbox.len() + i] == note(
                        n.targets()[i],
                        MessageKind::Request,
                        lock,
                        r,
                        0,
                    )
                &&& !m.holds(lock)
                &&& m.requester.map[lock].votes.len() == 0
                &&& m.requester.map[lock].next_renew == now + RENEW_INTERVAL
                &&& m.acquired == n.acquired
                &&& m.arbiter == n.arbiter
            }
        }),
        forall|other: Seq<char>|
            other != lock ==> #[trigger] n.request(now, other).requester.get(lock)
                == n.requester.get(lock),
{
}

/// **A release goes to every target**, with the token of the lock, and the lock is neither
/// held nor wanted any more. What is not wanted is not released.
pub proof fn law_releases_go_to_every_target(n: NodeView, lock: Seq<char>)
    requires
        n.wf(),
    ensures
        ({
            let m = n.release(lock);
            match n.requester.get(lock) {
                None => m == n,
                Some(r) => {
                    &&& m.request_of(lock) is None
                    &&& !m.holds(lock)
                    &&& m.outbox.len() == n.outbox.len() + n.targets().len()
                    &&& forall|i: int|
                        0 <= i < n.targets().len() ==> #[trigger] m.outbox[n.outbox.len() + i]
                            == note(
                            n.targets()[i],
                            MessageKind::Release,
                            lock,
                            r.req,
                            r.best_fence,
                        )
                    &&& m.arbiter == n.arbiter
                    &&& m.acquired == n.acquired
                    &&& m.lost == n.lost
                },
            }
        }),
        forall|other: Seq<char>|
            other != lock ==> #[trigger] n.release(other).requester.get(lock) == n.requester.get(
                lock,
            ),
{
}

/// A message that a member may send: a requester speaks for its own request, and an arbiter
/// answers the node that asked.
pub open spec fn may_send(n: NodeView, from: NodeId, kind: MessageKind, req: RequestId) -> bool {
    &&& n.members.contains(from)
    &&& n.members.contains(req.node)
    &&& match kind {
        MessageKind::Request | MessageKind::Yield | MessageKind::Confirm | MessageKind::Release
        | MessageKind::Renew => from == req.node,
        MessageKind::Grant | MessageKind::Inquire | MessageKind::Revoked => req.node == n.id,
    }
}

/// **Members are believed, others are not.** A message that its sender may not send is
/// ignored.
pub proof fn law_only_members_are_believed(
    n: NodeView,
    now: Instant,
    from: NodeId,
    msg: MessageView,
)
    ensures
        !may_send(n, from, msg.kind, msg.req) ==> n.handle(now, from, msg) == n,
{
}

// ---- an arbiter's vote ----------------------------------------------------------------------------
/// **A free vote is given.** Who asks for a free vote gets it, with the highest token that
/// this node knows of, for as long as a lease; and the clock is not behind the request.
pub proof fn law_free_votes_are_given(
    n: NodeView,
    now: Instant,
    from: NodeId,
    lock: Seq<char>,
    req: RequestId,
)
    requires
        n.wf(),
        may_send(n, from, MessageKind::Request, req),
        n.arbiter_of(lock).voted_for is None,
        now + LEASE <= u64::MAX,
    ensures
        ({
            let m = n.handle(
                now,
                from,
                MessageView { kind: MessageKind::Request, lock, req, fence: 0 },
            );
            let known = n.arbiter_of(lock).fence_max;
            &&& m.outbox == n.outbox.push(note(req.node, MessageKind::Grant, lock, req, known))
            &&& m.arbiter_of(lock).voted_for == Some(req)
            &&& m.arbiter_of(lock).lease == now + LEASE
            &&& m.arbiter_of(lock).fence_max == known
            &&& !m.arbiter_of(lock).inquired
            &&& m.arbiter_of(lock).queue == n.arbiter_of(lock).queue
            &&& m.lamport >= req.ts
            &&& m.lamport >= n.lamport
            &&& m.requester == n.requester
        }),
{
    let a = n.arbiter_of(lock);
    assert(n.outbox + seq![note(req.node, MessageKind::Grant, lock, req, a.fence_max)]
        =~= n.outbox.push(note(req.node, MessageKind::Grant, lock, req, a.fence_max)));
}

/// **A vote that is given is kept.** Who asks for a vote that another has waits for it. If
/// it asked earlier than the votee, the votee is asked, once, to yield; a later one has
/// nobody disturbed. The votee's own request, sent again, changes nothing.
pub proof fn law_given_votes_are_kept(
    n: NodeView,
    now: Instant,
    from: NodeId,
    lock: Seq<char>,
    req: RequestId,
    votee: RequestId,
)
    requires
        n.wf(),
        may_send(n, from, MessageKind::Request, req),
        n.arbiter_of(lock).voted_for == Some(votee),
    ensures
        ({
            let m = n.handle(
                now,
                from,
                MessageView { kind: MessageKind::Request, lock, req, fence: 0 },
            );
            let a = n.arbiter_of(lock);
            let b = m.arbiter_of(lock);
            let earlier = req.ts < votee.ts || (req.ts == votee.ts && req.node < votee.node);
            &&& b.voted_for == Some(votee)
            &&& b.lease == a.lease
            &&& b.fence_max == a.fence_max
            &&& m.lamport >= req.ts
            &&& forall|s: RequestId|
                s != req || req == votee ==> #[trigger] b.queue.contains(s) == a.queue.contains(s)
            &&& req != votee ==> b.queue.contains(req)
            &&& req != votee && earlier && !a.inquired ==> m.outbox == n.outbox.push(
                note(votee.node, MessageKind::Inquire, lock, votee, 0),
            ) && b.inquired
            &&& !(req != votee && earlier && !a.inquired) ==> m.outbox == n.outbox && b.inquired
                == a.inquired
        }),
{
    let a = n.arbiter_of(lock);
    assert(n.outbox + seq![note(votee.node, MessageKind::Inquire, lock, votee, 0)]
        =~= n.outbox.push(note(votee.node, MessageKind::Inquire, lock, votee, 0)));
    assert(n.outbox + Seq::<OutgoingView>::empty() =~= n.outbox);
}

/// **A vote that comes back goes to the earliest.** When the votee yields, it waits with the
/// others, and the earliest of all gets the vote and a new lease. When the votee releases,
/// it waits no more, and the earliest of those who are left gets the vote; if there is
/// nobody, the vote is free. Whoever gets it is told, with a token that is not behind the
/// one that was released.
pub proof fn law_votes_go_to_the_earliest(
    n: NodeView,
    now: Instant,
    from: NodeId,
    lock: Seq<char>,
    req: RequestId,
    fence: Fence,
    next: RequestId,
)
    requires
        n.wf(),
        n.arbiter.map.contains_key(lock),
        n.arbiter_of(lock).voted_for == Some(req),
        now + LEASE <= u64::MAX,
        may_send(n, from, MessageKind::Yield, req),
    ensures
        is_earliest(n.arbiter_of(lock).queue.insert(req), next) ==> ({
            let m = n.handle(
                now,
                from,
                MessageView { kind: MessageKind::Yield, lock, req, fence: 0 },
            );
            let known = n.arbiter_of(lock).fence_max;
            &&& m.arbiter_of(lock).voted_for == Some(next)
            &&& m.arbiter_of(lock).lease == now + LEASE
            &&& !m.arbiter_of(lock).inquired
            &&& m.arbiter_of(lock).fence_max == known
            &&& next != req ==> m.arbiter_of(lock).queue.contains(req)
            &&& !m.arbiter_of(lock).queue.contains(next)
            &&& forall|s: RequestId|
                s != next && s != req ==> #[trigger] m.arbiter_of(lock).queue.contains(s)
                    == n.arbiter_of(lock).queue.contains(s)
            &&& m.outbox == n.outbox.push(note(next.node, MessageKind::Grant, lock, next, known))
        }),
        ({
            let m = n.handle(
                now,
                from,
                MessageView { kind: MessageKind::Release, lock, req, fence },
            );
            let b = m.arbiter_of(lock);
            &&& b.fence_max >= fence
            &&& b.fence_max >= n.arbiter_of(lock).fence_max
            &&& b.fence_max == fence || b.fence_max == n.arbiter_of(lock).fence_max
            &&& !b.inquired
            &&& !b.queue.contains(req)
            &&& b.voted_for != Some(req)
            &&& is_earliest(n.arbiter_of(lock).queue, next) ==> {
                &&& b.voted_for == Some(next)
                &&& b.lease == now + LEASE
                &&& !b.queue.contains(next)
                &&& forall|s: RequestId|
                    s != next ==> #[trigger] b.queue.contains(s) == n.arbiter_of(
                        lock,
                    ).queue.contains(s)
                &&& m.outbox == n.outbox.push(
                    note(next.node, MessageKind::Grant, lock, next, b.fence_max),
                )
            }
            &&& (forall|s: RequestId| !n.arbiter_of(lock).queue.contains(s)) ==> b.voted_for
                is None && m.outbox == n.outbox
        }),
{
    let a = n.arbiter_of(lock);
    assert(a.wf());
    let waiting = a.queue.insert(req);
    let known = a.fence_max;
    if is_earliest(waiting, next) {
        lemma_earliest(waiting, next);
    }
    lemma_smallest_of(waiting, req);
    assert(!(waiting =~= Set::empty()));
    assert(n.outbox + seq![note(next.node, MessageKind::Grant, lock, next, known)]
        =~= n.outbox.push(note(next.node, MessageKind::Grant, lock, next, known)));
    assert(a.queue.remove(req) =~= a.queue);
    if is_earliest(a.queue, next) {
        lemma_earliest(a.queue, next);
    }
    if !(a.queue =~= Set::empty()) {
        let s = choose|s: RequestId| a.queue.contains(s);
        lemma_smallest_of(a.queue, s);
        assert(a.queue.contains(smallest(a.queue)));
    }
    let top = if fence > known {
        fence
    } else {
        known
    };
    assert(n.outbox + seq![note(next.node, MessageKind::Grant, lock, next, top)]
        =~= n.outbox.push(note(next.node, MessageKind::Grant, lock, next, top)));
    assert(n.outbox + Seq::<OutgoingView>::empty() =~= n.outbox);
}

/// **Who is no votee moves no vote.** A request that has not the vote, and is yielded or
/// released, leaves the vote where it is, and nobody is told anything. If it was waiting and
/// is released, it waits no more; its token is recorded all the same.
pub proof fn law_others_move_no_vote(
    n: NodeView,
    now: Instant,
    from: NodeId,
    lock: Seq<char>,
    req: RequestId,
    fence: Fence,
)
    requires
        n.wf(),
        n.arbiter.map.contains_key(lock),
        n.arbiter_of(lock).voted_for != Some(req),
        may_send(n, from, MessageKind::Yield, req),
    ensures
        n.handle(now, from, MessageView { kind: MessageKind::Yield, lock, req, fence: 0 }) == n,
        forall|other: Seq<char>|
            n.arbiter.get(other) is None ==> #[trigger] n.handle(
                now,
                from,
                MessageView { kind: MessageKind::Release, lock: other, req, fence },
            ) == n,
        ({
            let m = n.handle(
                now,
                from,
                MessageView { kind: MessageKind::Release, lock, req, fence },
            );
            let a = n.arbiter_of(lock);
            let b = m.arbiter_of(lock);
            &&& m.outbox == n.outbox
            &&& b.voted_for == a.voted_for
            &&& b.lease == a.lease
            &&& b.inquired == a.inquired
            &&& !b.queue.contains(req)
            &&& forall|s: RequestId|
                s != req ==> #[trigger] b.queue.contains(s) == a.queue.contains(s)
            &&& b.fence_max >= fence && b.fence_max >= a.fence_max
            &&& b.fence_max == fence || b.fence_max == a.fence_max
        }),
{
    assert(n.outbox + Seq::<OutgoingView>::empty() =~= n.outbox);
}

/// **Confirmed tokens are recorded.** A token that a holder confirms is known from then on,
/// unless a higher one is; nothing else changes.
pub proof fn law_confirmed_tokens_are_recorded(
    n: NodeView,
    now: Instant,
    from: NodeId,
    lock: Seq<char>,
    req: RequestId,
    fence: Fence,
)
    requires
        may_send(n, from, MessageKind::Confirm, req),
    ensures
        ({
            let m = n.handle(
                now,
                from,
                MessageView { kind: MessageKind::Confirm, lock, req, fence },
            );
            let a = n.arbiter_of(lock);
            let b = m.arbiter_of(lock);
            &&& b.fence_max >= fence && b.fence_max >= a.fence_max
            &&& b.fence_max == fence || b.fence_max == a.fence_max
            &&& b.voted_for == a.voted_for && b.queue == a.queue && b.lease == a.lease
                && b.inquired == a.inquired
            &&& m.outbox == n.outbox
            &&& m.requester == n.requester
        }),
{
    assert(n.outbox + Seq::<OutgoingView>::empty() =~= n.outbox);
}

/// **A renewal is honoured or refused.** If the vote is with the request that is renewed,
/// its lease starts anew and nobody is told anything. If the vote is not with it, the
/// requester is told, with one message, that it has lost the vote, and the vote stays where
/// it is.
pub proof fn law_renewals_are_honoured_or_refused(
    n: NodeView,
    now: Instant,
    from: NodeId,
    lock: Seq<char>,
    req: RequestId,
)
    requires
        may_send(n, from, MessageKind::Renew, req),
        now + LEASE <= u64::MAX,
    ensures
        ({
            let m = n.handle(
                now,
                from,
                MessageView { kind: MessageKind::Renew, lock, req, fence: 0 },
            );
            let a = n.arbiter_of(lock);
            let b = m.arbiter_of(lock);
            &&& b.voted_for == a.voted_for && b.queue == a.queue && b.fence_max == a.fence_max
                && b.inquired == a.inquired
            &&& if a.voted_for == Some(req) {
                b.lease == now + LEASE && m.outbox == n.outbox
            } else {
                b.lease == a.lease && m.outbox == n.outbox.push(
                    note(req.node, MessageKind::Revoked, lock, req, 0),
                )
            }
        }),
{
    assert(n.outbox + Seq::<OutgoingView>::empty() =~= n.outbox);
    assert(n.outbox + seq![note(req.node, MessageKind::Revoked, lock, req, 0)] =~= n.outbox.push(
        note(req.node, MessageKind::Revoked, lock, req, 0),
    ));
}

// ---- a requester's votes --------------------------------------------------------------------------
/// **Votes make a holder.** A vote for the node's request, from somebody whom it asked, is
/// counted once. With too few votes nothing happens; the vote that makes them enough makes
/// the node hold the lock, with a token one above every token that its voters knew, which
/// it reports and confirms to every voter and nobody else. A vote that comes later is
/// confirmed to its voter, and the token stays.
pub proof fn law_votes_make_a_holder(
    n: NodeView,
    now: Instant,
    from: NodeId,
    lock: Seq<char>,
    req: RequestId,
    fence: Fence,
)
    requires
        n.wf(),
        may_send(n, from, MessageKind::Grant, req),
    ensures
        ({
            let m = n.handle(
                now,
                from,
                MessageView { kind: MessageKind::Grant, lock, req, fence },
            );
            if n.request_of(lock) != Some(req) || !n.targets().contains(from) {
                m == n
            } else {
                let r = n.requester.map[lock];
                let s = m.requester.map[lock];
                &&& m.request_of(lock) == Some(req)
                &&& s.votes.contains(from)
                &&& forall|v: NodeId|
                    v != from ==> #[trigger] s.votes.contains(v) == r.votes.contains(v)
                &&& s.votes.len() == r.votes.len() + (if r.votes.contains(from) {
                    0int
                } else {
                    1
                })
                &&& s.next_renew == r.next_renew
                &&& m.lost == n.lost
                &&& if r.locked {
                    &&& s.locked
                    &&& s.best_fence == r.best_fence
                    &&& m.acquired == n.acquired
                    &&& m.outbox == n.outbox.push(
                        note(from, MessageKind::Confirm, lock, req, r.best_fence),
                    )
                } else if s.votes.len() < n.threshold() {
                    &&& !s.locked
                    &&& s.best_fence >= fence && s.best_fence >= r.best_fence
                    &&& s.best_fence == fence || s.best_fence == r.best_fence
                    &&& m.acquired == n.acquired
                    &&& m.outbox == n.outbox
                } else {
                    &&& s.locked
                    &&& fence < u64::MAX && r.best_fence < u64::MAX ==> s.best_fence > fence
                        && s.best_fence > r.best_fence && (s.best_fence == fence + 1
                        || s.best_fence == r.best_fence + 1)
                    &&& fence == u64::MAX || r.best_fence == u64::MAX ==> s.best_fence == u64::MAX
                    &&& m.acquired == n.acquired.push((lock, s.best_fence))
                    &&& m.outbox.len() == n.outbox.len() + s.votes.len()
                    &&& forall|i: int|
                        0 <= i < s.votes.len() ==> #[trigger] m.outbox[n.outbox.len() + i] == note(
                            s.votes[i],
                            MessageKind::Confirm,
                            lock,
                            req,
                            s.best_fence,
                        )
                }
            }
        }),
{
    if n.request_of(lock) == Some(req) && n.targets().contains(from) {
        let r = n.requester.map[lock];
        assert(n.requester_wf(r));
        let votes = r.votes.push(from);
        assert forall|v: NodeId| #[trigger] votes.contains(v) <==> r.votes.contains(v) || v
            == from by {
            if r.votes.contains(v) {
                assert(votes[r.votes.index_of(v)] == v);
            }
            assert(votes[votes.len() - 1] == from);
        }
        assert(n.outbox + seq![note(from, MessageKind::Confirm, lock, req, r.best_fence)]
            =~= n.outbox.push(note(from, MessageKind::Confirm, lock, req, r.best_fence)));
        assert(n.outbox + Seq::<OutgoingView>::empty() =~= n.outbox);
    }
}

/// **Who has not locked yields, a holder does not.** Asked by a voter, a node that does not
/// hold the lock gives that vote back, and keeps its others; a holder says nothing and
/// keeps everything.
pub proof fn law_only_waiters_yield(
    n: NodeView,
    now: Instant,
    from: NodeId,
    lock: Seq<char>,
    req: RequestId,
)
    requires
        n.wf(),
        may_send(n, from, MessageKind::Inquire, req),
    ensures
        ({
            let m = n.handle(
                now,
                from,
                MessageView { kind: MessageKind::Inquire, lock, req, fence: 0 },
            );
            if n.request_of(lock) != Some(req) || n.holds(lock) {
                m == n
            } else {
                let r = n.requester.map[lock];
                let s = m.requester.map[lock];
                &&& m.outbox == n.outbox.push(note(from, MessageKind::Yield, lock, req, 0))
                &&& m.request_of(lock) == Some(req)
                &&& !s.locked
                &&& s.best_fence == r.best_fence
                &&& s.next_renew == r.next_renew
                &&& !s.votes.contains(from)
                &&& forall|v: NodeId|
                    v != from ==> #[trigger] s.votes.contains(v) == r.votes.contains(v)
            }
        }),
{
    if n.request_of(lock) == Some(req) && !n.holds(lock) {
        let r = n.requester.map[lock];
        assert(n.requester_wf(r));
        lemma_without(r.votes, from);
        assert(n.outbox + seq![note(from, MessageKind::Yield, lock, req, 0)] =~= n.outbox.push(
            note(from, MessageKind::Yield, lock, req, 0),
        ));
    }
}

/// What is left when somebody is taken out of a list without repetitions.
proof fn lemma_without(votes: Seq<NodeId>, v: NodeId)
    requires
        votes.no_duplicates(),
    ensures
        !votes.remove_value(v).contains(v),
        forall|x: NodeId|
            x != v ==> #[trigger] votes.remove_value(v).contains(x) == votes.contains(x),
        votes.remove_value(v).len() == votes.len() - (if votes.contains(v) {
            1int
        } else {
            0
        }),
{
    votes.index_of_first_ensures(v);
    let rest = votes.remove_value(v);
    if votes.contains(v) {
        let i = votes.index_of_first(v)->0;
        assert(rest == votes.remove(i));
        assert forall|x: NodeId| x != v implies #[trigger] rest.contains(x) == votes.contains(x) by {
            if votes.contains(x) {
                let j = votes.index_of(x);
                if j < i {
                    assert(rest[j] == x);
                } else {
                    assert(rest[j - 1] == x);
                }
            }
            if rest.contains(x) {
                let j = rest.index_of(x);
                if j < i {
                    assert(votes[j] == x);
                } else {
                    assert(votes[j + 1] == x);
                }
            }
        }
        if rest.contains(v) {
            let j = rest.index_of(v);
            if j < i {
                assert(votes[j] == v);
            } else {
                assert(votes[j + 1] == v);
            }
        }
    }
}

/// **A holder that loses its quorum learns of it.** A vote that is revoked is counted no
/// more. A holder that is left with enough votes goes on; one that is left with too few
/// holds and wants the lock no more, says so once, and frees every vote with its token.
#[verifier::spinoff_prover]
#[verifier::rlimit(40)]
pub proof fn law_losses_are_noticed(
    n: NodeView,
    now: Instant,
    from: NodeId,
    lock: Seq<char>,
    req: RequestId,
)
    requires
        n.wf(),
        may_send(n, from, MessageKind::Revoked, req),
    ensures
        ({
            let m = n.handle(
                now,
                from,
                MessageView { kind: MessageKind::Revoked, lock, req, fence: 0 },
            );
            if n.request_of(lock) != Some(req) {
                m == n
            } else {
                let r = n.requester.map[lock];
                let left = r.votes.len() - (if r.votes.contains(from) {
                    1int
                } else {
                    0
                });
                &&& m.acquired == n.acquired
                &&& m.arbiter == n.arbiter
                &&& if r.locked && left < n.threshold() {
                    &&& m.request_of(lock) is None
                    &&& !m.holds(lock)
                    &&& m.lost == n.lost.push(lock)
                    &&& m.outbox.len() == n.outbox.len() + n.targets().len()
                    &&& forall|i: int|
                        0 <= i < n.targets().len() ==> #[trigger] m.outbox[n.outbox.len() + i]
                            == note(
                            n.targets()[i],
                            MessageKind::Release,
                            lock,
                            req,
                            r.best_fence,
                        )
                } else {
                    let s = m.requester.map[lock];
                    &&& m.request_of(lock) == Some(req)
                    &&& s.locked == r.locked
                    &&& s.best_fence == r.best_fence
                    &&& s.votes.len() == left
                    &&& !s.votes.contains(from)
                    &&& forall|v: NodeId|
                        v != from ==> #[trigger] s.votes.contains(v) == r.votes.contains(v)
                    &&& m.lost == n.lost
                    &&& m.outbox == n.outbox
                }
            }
        }),
{
    let m = n.handle(
        now,
        from,
        MessageView { kind: MessageKind::Revoked, lock, req, fence: 0 },
    );
    assert(n.accepts(from, MessageView { kind: MessageKind::Revoked, lock, req, fence: 0 }));
    assert(m == n.on_revoked(from, lock, req));
    if n.request_of(lock) == Some(req) {
        let r = n.requester.map[lock];
        assert(n.requester_wf(r));
        lemma_without(r.votes, from);
        let votes = r.votes.remove_value(from);
        if r.locked && votes.len() < n.threshold() {
            let sent = n.release_messages(lock, r);
            assert(m.outbox == n.outbox + sent);
            assert forall|i: int| 0 <= i < n.targets().len() implies #[trigger] m.outbox[n.outbox.len()
                + i] == note(n.targets()[i], MessageKind::Release, lock, req, r.best_fence) by {
                assert(m.outbox[n.outbox.len() + i] == sent[i]);
            }
        } else {
            assert(m.requester.map[lock].votes == votes);
            assert(n.outbox + Seq::<OutgoingView>::empty() =~= n.outbox);
        }
    }
}

// ---- the passing of time --------------------------------------------------------------------------
/// What is said for a key is said.
proof fn lemma_concat_has(
    keys: Seq<Seq<char>>,
    f: spec_fn(Seq<char>) -> Seq<OutgoingView>,
    k: Seq<char>,
    x: OutgoingView,
)
    requires
        keys.contains(k),
        f(k).contains(x),
    ensures
        concat_over(keys, f).contains(x),
    decreases keys.len(),
{
    let init = keys.drop_last();
    let head = concat_over(init, f);
    let all = concat_over(keys, f);
    if keys.last() == k {
        let i = f(k).index_of(x);
        assert(all[head.len() + i] == x);
    } else {
        let j = keys.index_of(k);
        assert(init[j] == k);
        lemma_concat_has(init, f, k, x);
        let i = head.index_of(x);
        assert(all[i] == x);
    }
}

/// Who is written to.
proof fn lemma_send_all(to: Seq<NodeId>, msg: MessageView, x: OutgoingView)
    ensures
        crate::model::send_all(to, msg).contains(x) <==> x.msg == msg && to.contains(x.to),
{
    let out = crate::model::send_all(to, msg);
    if out.contains(x) {
        let i = out.index_of(x);
        assert(out[i] == x);
        assert(to[i] == x.to);
    }
    if x.msg == msg && to.contains(x.to) {
        let i = to.index_of(x.to);
        assert(out[i] == x);
    }
}

/// What is said when time passes, behind what waits in the outbox already.
pub open spec fn said_at_tick(n: NodeView, now: Instant) -> Seq<OutgoingView> {
    n.tick(now).outbox.skip(n.outbox.len() as int)
}

/// Why a message is sent when time passes.
pub open spec fn due(n: NodeView, now: Instant, x: OutgoingView) -> bool {
    let a = n.arbiter_of(x.msg.lock);
    let r = n.requester.map[x.msg.lock];
    match x.msg.kind {
        // Its lease has run out.
        MessageKind::Revoked => {
            &&& a.voted_for == Some(x.msg.req)
            &&& now >= a.lease
            &&& x.to == x.msg.req.node
            &&& x.msg.fence == 0
        },
        // It is the next to have a vote whose lease has run out.
        MessageKind::Grant => {
            &&& a.voted_for is Some
            &&& now >= a.lease
            &&& is_earliest(a.queue, x.msg.req)
            &&& x.to == x.msg.req.node
            &&& x.msg.fence == a.fence_max
        },
        // Its vote is due to be renewed.
        MessageKind::Renew => {
            &&& n.request_of(x.msg.lock) == Some(x.msg.req)
            &&& now >= r.next_renew
            &&& r.votes.contains(x.to)
            &&& x.msg.fence == 0
        },
        // The lock is still wanted, whatever votes there are.
        MessageKind::Request => {
            &&& n.request_of(x.msg.lock) == Some(x.msg.req)
            &&& now >= r.next_renew
            &&& !n.holds(x.msg.lock)
            &&& n.targets().contains(x.to)
            &&& x.msg.fence == 0
        },
        _ => false,
    }
}

/// **What is due is said, and nothing else.** When time passes, a votee whose lease has run
/// out is told so, and the earliest who waits gets that vote. Every vote that a node has
/// is renewed when it is due. A request that has not made the node a holder by then is sent
/// again to every target, whatever votes it has: so a request that was lost on the way
/// arrives in the end.
pub proof fn law_what_is_due_is_said(n: NodeView, now: Instant, x: OutgoingView)
    requires
        n.wf(),
    ensures
        said_at_tick(n, now).contains(x) <==> due(n, now, x),
        n.tick(now).outbox == n.outbox + said_at_tick(n, now),
{
    let out = said_at_tick(n, now);
    assert(n.tick(now).outbox =~= n.outbox + out);
    let f1 = revoke_fn(n.arbiter, now);
    let f2 = regrant_fn(n.arbiter, now);
    let f3 = renew_fn(n.requester, now);
    let f4 = rebroadcast_fn(n.requester, n.targets(), now);
    let o1 = concat_over(n.arbiter.keys, f1);
    let o2 = concat_over(n.arbiter.keys, f2);
    let o3 = concat_over(n.requester.keys, f3);
    let o4 = concat_over(n.requester.keys, f4);
    assert(out =~= o1 + o2 + o3 + o4);
    let k = x.msg.lock;
    let a = n.arbiter_of(k);
    assert(a.wf());
    if !(a.queue =~= Set::empty()) {
        let s = choose|s: RequestId| a.queue.contains(s);
        lemma_smallest_of(a.queue, s);
        if is_earliest(a.queue, x.msg.req) {
            lemma_earliest(a.queue, x.msg.req);
        }
    }
    if n.requester.map.contains_key(k) {
        let r = n.requester.map[k];
        lemma_send_all(
            r.votes,
            MessageView { kind: MessageKind::Renew, lock: k, req: r.req, fence: 0 },
            x,
        );
        lemma_send_all(
            n.targets(),
            MessageView { kind: MessageKind::Request, lock: k, req: r.req, fence: 0 },
            x,
        );
    }
    if due(n, now, x) {
        match x.msg.kind {
            MessageKind::Revoked => {
                assert(n.arbiter.map.contains_key(k));
                assert(f1(k)[0] == x);
                lemma_concat_has(n.arbiter.keys, f1, k, x);
                let i = o1.index_of(x);
                assert(out[i] == x);
            },
            MessageKind::Grant => {
                assert(n.arbiter.map.contains_key(k));
                assert(f2(k)[0] == x);
                lemma_concat_has(n.arbiter.keys, f2, k, x);
                let i = o2.index_of(x);
                assert(out[o1.len() + i] == x);
            },
            MessageKind::Renew => {
                lemma_concat_has(n.requester.keys, f3, k, x);
                let i = o3.index_of(x);
                assert(out[o1.len() + o2.len() + i] == x);
            },
            _ => {
                lemma_concat_has(n.requester.keys, f4, k, x);
                let i = o4.index_of(x);
                assert(out[o1.len() + o2.len() + o3.len() + i] == x);
            },
        }
    }
    if out.contains(x) {
        let i = out.index_of(x);
        assert(out[i] == x);
        if i < o1.len() {
            let key = lemma_concat_elements(n.arbiter.keys, f1, i);
            assert(f1(key).contains(x));
            assert(n.arbiter.map.contains_key(key));
            assert(f1(key)[0] == x);
        } else if i < o1.len() + o2.len() {
            let key = lemma_concat_elements(n.arbiter.keys, f2, i - o1.len());
            assert(f2(key).contains(x));
            assert(n.arbiter.map.contains_key(key));
            assert(f2(key)[0] == x);
        } else if i < o1.len() + o2.len() + o3.len() {
            let key = lemma_concat_elements(n.requester.keys, f3, i - o1.len() - o2.len());
            assert(f3(key).contains(x));
            assert(n.requester.map.contains_key(key));
            let r = n.requester.map[key];
            lemma_send_all(
                r.votes,
                MessageView { kind: MessageKind::Renew, lock: key, req: r.req, fence: 0 },
                x,
            );
        } else {
            let key = lemma_concat_elements(
                n.requester.keys,
                f4,
                i - o1.len() - o2.len() - o3.len(),
            );
            assert(f4(key).contains(x));
            assert(n.requester.map.contains_key(key));
            let r = n.requester.map[key];
            lemma_send_all(
                n.targets(),
                MessageView { kind: MessageKind::Request, lock: key, req: r.req, fence: 0 },
                x,
            );
        }
    }
}

/// **A request that was lost is sent again.** When the renewal of a request that holds no
/// lock is due, every target is sent that request again, whatever votes it has; and the
/// next renewal is one interval away.
pub proof fn law_lost_requests_are_sent_again(
    n: NodeView,
    now: Instant,
    lock: Seq<char>,
    target: NodeId,
)
    requires
        n.wf(),
        n.request_of(lock) is Some,
        !n.holds(lock),
        now >= n.requester.map[lock].next_renew,
        n.targets().contains(target),
    ensures
        n.tick(now).outbox.contains(
            note(target, MessageKind::Request, lock, n.request_of(lock)->0, 0),
        ),
        now + RENEW_INTERVAL <= u64::MAX ==> n.tick(now).requester.map[lock].next_renew == now
            + RENEW_INTERVAL,
{
    let x = note(target, MessageKind::Request, lock, n.request_of(lock)->0, 0);
    law_what_is_due_is_said(n, now, x);
    let said = said_at_tick(n, now);
    let i = said.index_of(x);
    assert(n.tick(now).outbox[n.outbox.len() + i] == x);
}

/// **Time takes nothing but lapsed votes.** When time passes, what the node wants and holds
/// stays as it is, but for the time of the next renewal, which moves on exactly when it is
/// due. A vote whose lease has not run out stays where it is; one whose lease has run out
/// goes to the earliest who waits, with a new lease, or is free. Tokens are remembered.
pub proof fn law_time_takes_lapsed_votes_only(
    n: NodeView,
    now: Instant,
    lock: Seq<char>,
    next: RequestId,
)
    requires
        n.wf(),
        now + LEASE <= u64::MAX,
    ensures
        ({
            let m = n.tick(now);
            let a = n.arbiter_of(lock);
            let b = m.arbiter_of(lock);
            &&& m.acquired == n.acquired && m.lost == n.lost && m.lamport == n.lamport
            &&& m.request_of(lock) == n.request_of(lock)
            &&& n.requester.get(lock) matches Some(r) ==> {
                let s = m.requester.map[lock];
                &&& s.votes == r.votes && s.locked == r.locked && s.best_fence == r.best_fence
                &&& s.next_renew == if now >= r.next_renew {
                    now + RENEW_INTERVAL
                } else {
                    r.next_renew as int
                }
            }
            &&& b.fence_max == a.fence_max
            &&& a.voted_for is Some && now < a.lease ==> b == a
            &&& a.voted_for is None ==> b.voted_for is None
            &&& a.voted_for is Some && now >= a.lease ==> {
                &&& !b.inquired
                &&& is_earliest(a.queue, next) ==> {
                    &&& b.voted_for == Some(next)
                    &&& b.lease == now + LEASE
                    &&& !b.inquired
                    &&& !b.queue.contains(next)
                    &&& forall|s: RequestId|
                        s != next ==> #[trigger] b.queue.contains(s) == a.queue.contains(s)
                }
                &&& (forall|s: RequestId| !a.queue.contains(s)) ==> b.voted_for is None
            }
        }),
{
    let a = n.arbiter_of(lock);
    assert(a.wf());
    if is_earliest(a.queue, next) {
        lemma_earliest(a.queue, next);
    }
    if !(a.queue =~= Set::empty()) {
        let s = choose|s: RequestId| a.queue.contains(s);
        assert(a.queue.contains(s));
    }
}

/// **Handling a message changes nothing beside.** The logical clock follows requests alone, to
/// the time of the request if that is ahead. What is for the arbiter leaves the node's own
/// wishes and holdings alone, and what is for the requester leaves its votes alone. Only a
/// vote makes the node acquire, and only a revocation makes it lose.
pub proof fn law_handling_changes_nothing_beside(
    n: NodeView,
    now: Instant,
    from: NodeId,
    msg: MessageView,
)
    requires
        may_send(n, from, msg.kind, msg.req),
    ensures
        ({
            let m = n.handle(now, from, msg);
            let for_requester = msg.kind is Grant || msg.kind is Inquire || msg.kind is Revoked;
            &&& m.id == n.id && m.policy == n.policy && m.members == n.members
            &&& msg.kind is Request ==> m.lamport == if msg.req.ts > n.lamport {
                msg.req.ts
            } else {
                n.lamport
            }
            &&& !(msg.kind is Request) ==> m.lamport == n.lamport
            &&& for_requester ==> m.arbiter == n.arbiter
            &&& !for_requester ==> m.requester == n.requester
            &&& !(msg.kind is Grant) ==> m.acquired == n.acquired
            &&& !(msg.kind is Revoked) ==> m.lost == n.lost
        }),
{
}

/// Lists of different locks have nothing in common.
proof fn lemma_concat_distinct(
    keys: Seq<Seq<char>>,
    f: spec_fn(Seq<char>) -> Seq<OutgoingView>,
)
    requires
        keys.no_duplicates(),
        forall|k: Seq<char>| keys.contains(k) ==> (#[trigger] f(k)).no_duplicates(),
        forall|k: Seq<char>, i: int|
            #![trigger f(k)[i]]
            keys.contains(k) && 0 <= i < f(k).len() ==> f(k)[i].msg.lock == k,
    ensures
        concat_over(keys, f).no_duplicates(),
    decreases keys.len(),
{
    if keys.len() > 0 {
        let init = keys.drop_last();
        let last = keys.last();
        assert(keys[keys.len() - 1] == last);
        assert forall|k: Seq<char>| init.contains(k) implies keys.contains(k) by {
            let i = init.index_of(k);
            assert(keys[i] == k);
        }
        lemma_concat_distinct(init, f);
        let head = concat_over(init, f);
        let tail = f(last);
        let all = concat_over(keys, f);
        assert(all == head + tail);
        assert forall|i: int, j: int|
            0 <= i < all.len() && 0 <= j < all.len() && i != j implies all[i] != all[j] by {
            if i < head.len() && j < head.len() {
                assert(all[i] == head[i] && all[j] == head[j]);
            } else if i >= head.len() && j >= head.len() {
                assert(all[i] == tail[i - head.len()] && all[j] == tail[j - head.len()]);
            } else {
                let a = if i < head.len() {
                    i
                } else {
                    j
                };
                let b = if i < head.len() {
                    j
                } else {
                    i
                };
                let k = lemma_concat_elements(init, f, a);
                assert(f(k).contains(head[a]));
                let x = f(k).index_of(head[a]);
                assert(f(k)[x].msg.lock == k);
                assert(tail[b - head.len()].msg.lock == last);
                let y = init.index_of(k);
                assert(keys[y] == k);
            }
        }
    }
}

/// Nobody is written to twice.
proof fn lemma_send_all_distinct(to: Seq<NodeId>, msg: MessageView)
    requires
        to.no_duplicates(),
    ensures
        crate::model::send_all(to, msg).no_duplicates(),
{
    let out = crate::model::send_all(to, msg);
    assert forall|i: int, j: int|
        0 <= i < out.len() && 0 <= j < out.len() && i != j implies out[i] != out[j] by {
        assert(out[i].to == to[i] && out[j].to == to[j]);
    }
}

/// Which kinds of messages stand where.
proof fn lemma_kinds_in_order(n: NodeView, now: Instant)
    requires
        n.wf(),
    ensures
        ({
            let o1 = concat_over(n.arbiter.keys, revoke_fn(n.arbiter, now));
            let o2 = concat_over(n.arbiter.keys, regrant_fn(n.arbiter, now));
            let o3 = concat_over(n.requester.keys, renew_fn(n.requester, now));
            let o4 = concat_over(n.requester.keys, rebroadcast_fn(n.requester, n.targets(), now));
            &&& forall|i: int| 0 <= i < o1.len() ==> (#[trigger] o1[i]).msg.kind is Revoked
            &&& forall|i: int| 0 <= i < o2.len() ==> (#[trigger] o2[i]).msg.kind is Grant
            &&& forall|i: int| 0 <= i < o3.len() ==> (#[trigger] o3[i]).msg.kind is Renew
            &&& forall|i: int| 0 <= i < o4.len() ==> (#[trigger] o4[i]).msg.kind is Request
        }),
{
    let f1 = revoke_fn(n.arbiter, now);
    let f2 = regrant_fn(n.arbiter, now);
    let f3 = renew_fn(n.requester, now);
    let f4 = rebroadcast_fn(n.requester, n.targets(), now);
    let o1 = concat_over(n.arbiter.keys, f1);
    let o2 = concat_over(n.arbiter.keys, f2);
    let o3 = concat_over(n.requester.keys, f3);
    let o4 = concat_over(n.requester.keys, f4);
    assert forall|i: int| 0 <= i < o1.len() implies (#[trigger] o1[i]).msg.kind is Revoked by {
        let k = lemma_concat_elements(n.arbiter.keys, f1, i);
        let x = f1(k).index_of(o1[i]);
        assert(f1(k)[x] == o1[i]);
    }
    assert forall|i: int| 0 <= i < o2.len() implies (#[trigger] o2[i]).msg.kind is Grant by {
        let k = lemma_concat_elements(n.arbiter.keys, f2, i);
        let x = f2(k).index_of(o2[i]);
        assert(f2(k)[x] == o2[i]);
    }
    assert forall|i: int| 0 <= i < o3.len() implies (#[trigger] o3[i]).msg.kind is Renew by {
        let k = lemma_concat_elements(n.requester.keys, f3, i);
        let x = f3(k).index_of(o3[i]);
        assert(f3(k)[x] == o3[i]);
    }
    assert forall|i: int| 0 <= i < o4.len() implies (#[trigger] o4[i]).msg.kind is Request by {
        let k = lemma_concat_elements(n.requester.keys, f4, i);
        let x = f4(k).index_of(o4[i]);
        assert(f4(k)[x] == o4[i]);
    }
}

/// **Nothing is said twice** when time passes.
pub proof fn law_nothing_is_said_twice(n: NodeView, now: Instant)
    requires
        n.wf(),
    ensures
        said_at_tick(n, now).no_duplicates(),
{
    law_whom_a_node_asks(n);
    let f1 = revoke_fn(n.arbiter, now);
    let f2 = regrant_fn(n.arbiter, now);
    let f3 = renew_fn(n.requester, now);
    let f4 = rebroadcast_fn(n.requester, n.targets(), now);
    let o1 = concat_over(n.arbiter.keys, f1);
    let o2 = concat_over(n.arbiter.keys, f2);
    let o3 = concat_over(n.requester.keys, f3);
    let o4 = concat_over(n.requester.keys, f4);
    let out = said_at_tick(n, now);
    assert(out =~= o1 + o2 + o3 + o4);
    assert forall|k: Seq<char>| n.requester.keys.contains(k) implies (#[trigger] f3(
        k,
    )).no_duplicates() by {
        assert(n.requester.map.contains_key(k));
        let r = n.requester.map[k];
        assert(n.requester_wf(r));
        lemma_send_all_distinct(
            r.votes,
            MessageView { kind: MessageKind::Renew, lock: k, req: r.req, fence: 0 },
        );
    }
    assert forall|k: Seq<char>| n.requester.keys.contains(k) implies (#[trigger] f4(
        k,
    )).no_duplicates() by {
        let r = n.requester.map[k];
        lemma_send_all_distinct(
            n.targets(),
            MessageView { kind: MessageKind::Request, lock: k, req: r.req, fence: 0 },
        );
    }
    lemma_concat_distinct(n.arbiter.keys, f1);
    lemma_concat_distinct(n.arbiter.keys, f2);
    lemma_concat_distinct(n.requester.keys, f3);
    lemma_concat_distinct(n.requester.keys, f4);
    lemma_kinds_in_order(n, now);
    assert forall|i: int, j: int|
        0 <= i < out.len() && 0 <= j < out.len() && i != j implies out[i] != out[j] by {
        lemma_part_of(o1, o2, o3, o4, i);
        lemma_part_of(o1, o2, o3, o4, j);
    }
}

/// When a kind of message has its turn as time passes.
pub open spec fn turn_of(kind: MessageKind) -> int {
    match kind {
        MessageKind::Revoked => 0,
        MessageKind::Grant => 1,
        MessageKind::Renew => 2,
        _ => 3,
    }
}

/// **Losers are told first.** When time passes, those who have lost a vote are told before
/// anybody is given one; renewals and then repeated requests come behind.
pub proof fn law_losers_are_told_first(n: NodeView, now: Instant, i: int, j: int)
    requires
        n.wf(),
        0 <= i < j < said_at_tick(n, now).len(),
    ensures
        turn_of(said_at_tick(n, now)[i].msg.kind) <= turn_of(said_at_tick(n, now)[j].msg.kind),
{
    lemma_kinds_in_order(n, now);
    let o1 = concat_over(n.arbiter.keys, revoke_fn(n.arbiter, now));
    let o2 = concat_over(n.arbiter.keys, regrant_fn(n.arbiter, now));
    let o3 = concat_over(n.requester.keys, renew_fn(n.requester, now));
    let o4 = concat_over(n.requester.keys, rebroadcast_fn(n.requester, n.targets(), now));
    assert(said_at_tick(n, now) =~= o1 + o2 + o3 + o4);
    lemma_part_of(o1, o2, o3, o4, i);
    lemma_part_of(o1, o2, o3, o4, j);
}

/// Where a message stands.
proof fn lemma_part_of(
    o1: Seq<OutgoingView>,
    o2: Seq<OutgoingView>,
    o3: Seq<OutgoingView>,
    o4: Seq<OutgoingView>,
    i: int,
)
    requires
        0 <= i < (o1 + o2 + o3 + o4).len(),
    ensures
        ({
            let out = o1 + o2 + o3 + o4;
            let a = o1.len() as int;
            let b = a + o2.len();
            let c = b + o3.len();
            &&& i < a ==> out[i] == o1[i]
            &&& a <= i < b ==> out[i] == o2[i - a]
            &&& b <= i < c ==> out[i] == o3[i - b]
            &&& c <= i ==> out[i] == o4[i - c]
        }),
{
}

/// **Only what matters is remembered.** When time has passed, a node remembers exactly those
/// locks that it knew and of which its vote is given, or somebody waits, or a token is known.
pub proof fn law_only_what_matters_is_remembered(n: NodeView, now: Instant, lock: Seq<char>)
    requires
        n.wf(),
        now + LEASE <= u64::MAX,
    ensures
        ({
            let b = n.tick(now).arbiter_of(lock);
            n.tick(now).arbiter.map.contains_key(lock) <==> n.arbiter.map.contains_key(lock) && (
            b.voted_for is Some || b.fence_max > 0 || exists|s: RequestId|
                b.queue.contains(s))
        }),
{
    let a = n.arbiter_of(lock);
    assert(a.wf());
    if !(a.queue =~= Set::empty()) {
        let s = choose|s: RequestId| a.queue.contains(s);
        lemma_smallest_of(a.queue, s);
    }
    let b = crate::model::arbiter_after(a, now);
    if b.queue =~= Set::empty() {
        assert forall|s: RequestId| !b.queue.contains(s) by {}
    } else {
        let s = choose|s: RequestId| b.queue.contains(s);
        assert(b.queue.contains(s));
    }
}

/// **A new node has nothing.** It has voted for nobody, wants nothing and says nothing.
pub proof fn law_new_nodes_have_nothing(
    id: NodeId,
    policy: QuorumPolicy,
    members: Seq<NodeId>,
    lock: Seq<char>,
)
    ensures
        ({
            let n = NodeView::fresh(id, policy, members);
            &&& n.id == id && n.policy == policy && n.members == members && n.lamport == 0
            &&& n.request_of(lock) is None
            &&& !n.holds(lock)
            &&& n.arbiter_of(lock) == (ArbiterView {
                voted_for: None,
                inquired: false,
                queue: Set::empty(),
                fence_max: 0,
                lease: 0,
            })
            &&& n.outbox.len() == 0 && n.acquired.len() == 0 && n.lost.len() == 0
        }),
{
}

} // verus!
