//! The protocol as mathematics: the state of one node and what each event does
//! to it.
//!
//! [`crate::Node`] computes exactly these functions; [`crate::cluster`] proves
//! what a network of nodes that follow them guarantees.
use vstd::prelude::*;

use crate::lock_map::Table;
use crate::quorum::{
    lemma_grid_members, quorum_targets, quorum_threshold, valid_members, QuorumPolicy,
};
use crate::types::{
    fenced_message, plain_message, Fence, Instant, Lamport, MessageKind, MessageView, NodeId,
    OutgoingView, RequestId, LEASE, RENEW_INTERVAL,
};

verus! {

/// What a node knows of one lock as an arbiter (a voter).
#[verifier::ext_equal]
pub struct ArbiterView {
    /// The request that has this node's vote.
    pub voted_for: Option<RequestId>,
    /// Whether the current votee has been asked to yield.
    pub inquired: bool,
    /// The requests that wait for the vote.
    pub queue: Set<RequestId>,
    /// The highest fence token recorded for the lock.
    pub fence_max: Fence,
    /// When the vote lapses; meaningful only while `voted_for` is `Some`.
    pub lease: Instant,
}

/// What a node knows of one lock as a requester.
#[verifier::ext_equal]
pub struct RequesterView {
    pub req: RequestId,
    /// The arbiters whose vote it holds, in the order in which they granted.
    pub votes: Seq<NodeId>,
    /// While unlocked: the highest fence seen from granters. Once locked: the
    /// chosen token.
    pub best_fence: Fence,
    pub locked: bool,
    /// When the held votes are next renewed.
    pub next_renew: Instant,
}

/// The state of a node.
#[verifier::ext_equal]
pub struct NodeView {
    pub id: NodeId,
    pub policy: QuorumPolicy,
    pub members: Seq<NodeId>,
    pub lamport: Lamport,
    pub arbiter: Table<ArbiterView>,
    pub requester: Table<RequesterView>,
    pub outbox: Seq<OutgoingView>,
    pub acquired: Seq<(Seq<char>, Fence)>,
    pub lost: Seq<Seq<char>>,
}

impl ArbiterView {
    /// An arbiter that has heard nothing of the lock.
    pub open spec fn fresh() -> ArbiterView {
        ArbiterView {
            voted_for: None,
            inquired: false,
            queue: Set::empty(),
            fence_max: 0,
            lease: 0,
        }
    }

    /// An arbiter whose vote is free has nobody waiting and nobody asked, and
    /// the votee does not wait for its own vote.
    pub open spec fn wf(self) -> bool {
        &&& self.queue.finite()
        &&& match self.voted_for {
            None => self.queue =~= Set::empty() && !self.inquired,
            Some(r) => !self.queue.contains(r),
        }
    }

    /// Nothing is lost by forgetting this entry: the vote is free, nobody waits
    /// and no fence token was recorded.
    pub open spec fn idle(self) -> bool {
        self.voted_for is None && self.queue =~= Set::empty() && self.fence_max == 0
    }

    /// Whether the votee's lease has lapsed at `now`.
    pub open spec fn lapsed(self, now: Instant) -> bool {
        self.voted_for is Some && now >= self.lease
    }
}

impl RequesterView {
    /// Whether renewals are due at `now`.
    pub open spec fn renew_due(self, now: Instant) -> bool {
        now >= self.next_renew
    }
}

/// The smallest of a nonempty set of requests.
pub open spec fn smallest(queue: Set<RequestId>) -> RequestId {
    choose|m: RequestId| is_smallest(queue, m)
}

/// `m` is in `queue` and comes before everything else in it.
pub open spec fn is_smallest(queue: Set<RequestId>, m: RequestId) -> bool {
    &&& queue.contains(m)
    &&& forall|s: RequestId| #[trigger] queue.contains(s) ==> s == m || m.precedes(s)
}

/// The larger of two fence tokens.
pub open spec fn max_fence(a: Fence, b: Fence) -> Fence {
    if b > a {
        b
    } else {
        a
    }
}

/// The token after `f`; the largest token stays where it is.
pub open spec fn next_fence(f: Fence) -> Fence {
    if f < u64::MAX {
        (f + 1) as u64
    } else {
        f
    }
}

/// `msg`, addressed to `to`.
pub open spec fn send_to(to: NodeId, msg: MessageView) -> OutgoingView {
    OutgoingView { to, msg }
}

/// `msg`, addressed to each of `to` in order.
pub open spec fn send_all(to: Seq<NodeId>, msg: MessageView) -> Seq<OutgoingView> {
    to.map_values(|t: NodeId| send_to(t, msg))
}

/// What `f` gives for each key, one after the other.
pub open spec fn concat_over(
    keys: Seq<Seq<char>>,
    f: spec_fn(Seq<char>) -> Seq<OutgoingView>,
) -> Seq<OutgoingView>
    decreases keys.len(),
{
    if keys.len() == 0 {
        Seq::empty()
    } else {
        concat_over(keys.drop_last(), f) + f(keys.last())
    }
}

// ---- arbiter role ---------------------------------------------------------
/// The vote goes to the smallest waiting request, or becomes free.
pub open spec fn arbiter_grant_next(a: ArbiterView, now: Instant) -> ArbiterView {
    if a.queue =~= Set::empty() {
        ArbiterView { voted_for: None, inquired: false, ..a }
    } else {
        let next = smallest(a.queue);
        ArbiterView {
            voted_for: Some(next),
            inquired: false,
            queue: a.queue.remove(next),
            lease: (now + LEASE) as u64,
            ..a
        }
    }
}

/// The message that tells the new votee, if there is one.
pub open spec fn grant_next_messages(lock: Seq<char>, a: ArbiterView) -> Seq<OutgoingView> {
    if a.queue =~= Set::empty() {
        Seq::empty()
    } else {
        seq![grant_message(lock, smallest(a.queue), a.fence_max)]
    }
}

/// "You have my vote", to the requester.
pub open spec fn grant_message(lock: Seq<char>, req: RequestId, fence: Fence) -> OutgoingView {
    send_to(req.node, fenced_message(MessageKind::Grant, lock, req, fence))
}

/// A vote request: a free vote is granted, otherwise the request waits; a
/// request smaller than the votee's has the votee asked, once, to yield.
pub open spec fn arbiter_request(a: ArbiterView, req: RequestId, now: Instant) -> ArbiterView {
    match a.voted_for {
        None => ArbiterView { voted_for: Some(req), lease: (now + LEASE) as u64, ..a },
        Some(current) => if current == req {
            a
        } else {
            ArbiterView {
                queue: a.queue.insert(req),
                inquired: a.inquired || req.precedes(current),
                ..a
            }
        },
    }
}

/// What [`arbiter_request`] has sent.
pub open spec fn request_messages(lock: Seq<char>, a: ArbiterView, req: RequestId) -> Seq<
    OutgoingView,
> {
    match a.voted_for {
        None => seq![grant_message(lock, req, a.fence_max)],
        Some(current) => if current != req && req.precedes(current) && !a.inquired {
            seq![send_to(current.node, plain_message(MessageKind::Inquire, lock, current))]
        } else {
            Seq::empty()
        },
    }
}

/// The arbiter just before the yielded vote is given away: the yielder waits.
pub open spec fn arbiter_yielded(a: ArbiterView, req: RequestId) -> ArbiterView {
    ArbiterView { queue: a.queue.insert(req), inquired: false, ..a }
}

/// The arbiter with the departing holder's token recorded and its request gone
/// from the queue.
pub open spec fn arbiter_released(a: ArbiterView, req: RequestId, fence: Fence) -> ArbiterView {
    ArbiterView { fence_max: max_fence(a.fence_max, fence), queue: a.queue.remove(req), ..a }
}

impl NodeView {
    /// The members this node asks for their vote.
    pub open spec fn targets(self) -> Seq<NodeId> {
        quorum_targets(self.policy, self.id, self.members)
    }

    /// How many votes this node needs.
    pub open spec fn threshold(self) -> nat {
        quorum_threshold(self.policy, self.id, self.members)
    }

    /// A requester's state fits the node: its own request, drawn from its own
    /// clock; no vote counted twice or taken from outside the quorum; locked
    /// exactly when it holds enough votes, and then with a token above zero.
    pub open spec fn requester_wf(self, r: RequesterView) -> bool {
        &&& r.req.node == self.id
        &&& r.req.ts <= self.lamport
        &&& r.votes.no_duplicates()
        &&& forall|x: NodeId| #[trigger] r.votes.contains(x) ==> self.targets().contains(x)
        &&& r.locked <==> r.votes.len() >= self.threshold()
        &&& r.locked ==> r.best_fence >= 1
    }

    /// The node's state is consistent.
    pub open spec fn wf(self) -> bool {
        &&& valid_members(self.id, self.members)
        &&& self.arbiter.wf()
        &&& self.requester.wf()
        &&& forall|k: Seq<char>| #[trigger]
            self.arbiter.map.contains_key(k) ==> self.arbiter.map[k].wf()
        &&& forall|k: Seq<char>| #[trigger]
            self.requester.map.contains_key(k) ==> self.requester_wf(self.requester.map[k])
    }

    /// A node that has just been created.
    pub open spec fn fresh(id: NodeId, policy: QuorumPolicy, members: Seq<NodeId>) -> NodeView {
        NodeView {
            id,
            policy,
            members,
            lamport: 0,
            arbiter: Table::empty(),
            requester: Table::empty(),
            outbox: Seq::empty(),
            acquired: Seq::empty(),
            lost: Seq::empty(),
        }
    }

    /// The node with everything it has to say said: messages sent, acquired and
    /// lost locks reported.
    pub open spec fn settled(self) -> NodeView {
        NodeView { outbox: Seq::empty(), acquired: Seq::empty(), lost: Seq::empty(), ..self }
    }

    /// What this node knows of `lock` as an arbiter.
    pub open spec fn arbiter_of(self, lock: Seq<char>) -> ArbiterView {
        match self.arbiter.get(lock) {
            Some(a) => a,
            None => ArbiterView::fresh(),
        }
    }

    /// This node's request for `lock`, if it has one.
    pub open spec fn request_of(self, lock: Seq<char>) -> Option<RequestId> {
        match self.requester.get(lock) {
            Some(r) => Some(r.req),
            None => None,
        }
    }

    /// Whether this node holds `lock`.
    pub open spec fn holds(self, lock: Seq<char>) -> bool {
        self.requester.map.contains_key(lock) && self.requester.map[lock].locked
    }

    /// The node with `a` as what it knows of `lock`, and `out` sent.
    pub open spec fn with_arbiter(
        self,
        lock: Seq<char>,
        a: ArbiterView,
        out: Seq<OutgoingView>,
    ) -> NodeView {
        NodeView { arbiter: self.arbiter.put(lock, a), outbox: self.outbox + out, ..self }
    }

    /// The node with `r` as its request for `lock`, and `out` sent.
    pub open spec fn with_requester(
        self,
        lock: Seq<char>,
        r: RequesterView,
        out: Seq<OutgoingView>,
    ) -> NodeView {
        NodeView { requester: self.requester.put(lock, r), outbox: self.outbox + out, ..self }
    }

    // ---- intent -----------------------------------------------------------
    /// The id that the node's next request gets.
    pub open spec fn next_request(self) -> RequestId {
        RequestId { ts: (self.lamport + 1) as u64, node: self.id }
    }

    /// Begin acquiring `lock`; a lock already being acquired or held is left
    /// alone.
    pub open spec fn request(self, now: Instant, lock: Seq<char>) -> NodeView {
        if self.requester.map.contains_key(lock) {
            self
        } else {
            let req = self.next_request();
            NodeView { lamport: req.ts, ..self }.with_requester(
                lock,
                RequesterView {
                    req,
                    votes: Seq::empty(),
                    best_fence: 0,
                    locked: false,
                    next_renew: (now + RENEW_INTERVAL) as u64,
                },
                send_all(self.targets(), plain_message(MessageKind::Request, lock, req)),
            )
        }
    }

    /// The messages that free the votes given to request `r` for `lock`.
    pub open spec fn release_messages(self, lock: Seq<char>, r: RequesterView) -> Seq<
        OutgoingView,
    > {
        send_all(
            self.targets(),
            fenced_message(MessageKind::Release, lock, r.req, r.best_fence),
        )
    }

    /// Give up a held or requested lock.
    pub open spec fn release(self, lock: Seq<char>) -> NodeView {
        if self.requester.map.contains_key(lock) {
            NodeView {
                requester: self.requester.del(lock),
                outbox: self.outbox + self.release_messages(lock, self.requester.map[lock]),
                ..self
            }
        } else {
            self
        }
    }

    // ---- inbound messages ---------------------------------------------------
    /// Whether a message from `from` is one that a member may send: a request's
    /// own node speaks for it, and an arbiter answers the node that asked.
    pub open spec fn accepts(self, from: NodeId, msg: MessageView) -> bool {
        &&& self.members.contains(from)
        &&& self.members.contains(msg.req.node)
        &&& if msg.kind.to_arbiter() {
            from == msg.req.node
        } else {
            msg.req.node == self.id
        }
    }

    /// Whether a message from `from` has this node give or renew a vote, and with it a
    /// lease.
    pub open spec fn gives_lease(self, from: NodeId, msg: MessageView) -> bool {
        let a = self.arbiter_of(msg.lock);
        self.accepts(from, msg) && match msg.kind {
            MessageKind::Request => a.voted_for is None,
            MessageKind::Yield | MessageKind::Renew => a.voted_for == Some(msg.req),
            MessageKind::Release => a.voted_for == Some(msg.req) && !(a.queue.remove(msg.req)
                =~= Set::empty()),
            _ => false,
        }
    }

    /// A vote request arrives.
    pub open spec fn on_request(self, now: Instant, lock: Seq<char>, req: RequestId) -> NodeView {
        let a = self.arbiter_of(lock);
        NodeView {
            lamport: if req.ts > self.lamport {
                req.ts
            } else {
                self.lamport
            },
            ..self
        }.with_arbiter(lock, arbiter_request(a, req, now), request_messages(lock, a, req))
    }

    /// A votee hands its vote back.
    pub open spec fn on_yield(self, now: Instant, lock: Seq<char>, req: RequestId) -> NodeView {
        match self.arbiter.get(lock) {
            None => self,
            Some(a) => if a.voted_for == Some(req) {
                let b = arbiter_yielded(a, req);
                self.with_arbiter(lock, arbiter_grant_next(b, now), grant_next_messages(lock, b))
            } else {
                self
            },
        }
    }

    /// A holder's fence token is recorded.
    pub open spec fn on_confirm(self, lock: Seq<char>, fence: Fence) -> NodeView {
        let a = self.arbiter_of(lock);
        self.with_arbiter(
            lock,
            ArbiterView { fence_max: max_fence(a.fence_max, fence), ..a },
            Seq::empty(),
        )
    }

    /// A request is given up: its token is recorded before the vote moves on.
    pub open spec fn on_release(
        self,
        now: Instant,
        lock: Seq<char>,
        req: RequestId,
        fence: Fence,
    ) -> NodeView {
        match self.arbiter.get(lock) {
            None => self,
            Some(a) => {
                let b = arbiter_released(a, req, fence);
                if a.voted_for == Some(req) {
                    self.with_arbiter(
                        lock,
                        arbiter_grant_next(b, now),
                        grant_next_messages(lock, b),
                    )
                } else {
                    self.with_arbiter(lock, b, Seq::empty())
                }
            },
        }
    }

    /// A votee renews its lease, or is told that it has lost the vote.
    pub open spec fn on_renew(self, now: Instant, lock: Seq<char>, req: RequestId) -> NodeView {
        let a = self.arbiter_of(lock);
        if a.voted_for == Some(req) {
            self.with_arbiter(
                lock,
                ArbiterView { lease: (now + LEASE) as u64, ..a },
                Seq::empty(),
            )
        } else {
            NodeView {
                outbox: self.outbox + seq![
                    send_to(req.node, plain_message(MessageKind::Revoked, lock, req)),
                ],
                ..self
            }
        }
    }

    /// A vote arrives: it counts if it comes from this node's quorum and for
    /// its current request. Enough votes lock the lock, with a fence token
    /// above every token the voters knew.
    pub open spec fn on_grant(
        self,
        from: NodeId,
        lock: Seq<char>,
        req: RequestId,
        fence: Fence,
    ) -> NodeView {
        if self.targets().contains(from) && self.request_of(lock) == Some(req) {
            let r = self.requester.map[lock];
            let votes = if r.votes.contains(from) {
                r.votes
            } else {
                r.votes.push(from)
            };
            if r.locked {
                self.with_requester(
                    lock,
                    RequesterView { votes, ..r },
                    seq![
                        send_to(
                            from,
                            fenced_message(MessageKind::Confirm, lock, req, r.best_fence),
                        ),
                    ],
                )
            } else {
                let best = max_fence(r.best_fence, fence);
                if votes.len() >= self.threshold() {
                    let token = next_fence(best);
                    NodeView {
                        acquired: self.acquired.push((lock, token)),
                        ..self.with_requester(
                            lock,
                            RequesterView { votes, best_fence: token, locked: true, ..r },
                            send_all(
                                votes,
                                fenced_message(MessageKind::Confirm, lock, req, token),
                            ),
                        )
                    }
                } else {
                    self.with_requester(
                        lock,
                        RequesterView { votes, best_fence: best, ..r },
                        Seq::empty(),
                    )
                }
            }
        } else {
            self
        }
    }

    /// An arbiter asks for its vote back: a requester that has not locked
    /// gives it back, a holder does not.
    pub open spec fn on_inquire(self, from: NodeId, lock: Seq<char>, req: RequestId) -> NodeView {
        if self.request_of(lock) == Some(req) && !self.requester.map[lock].locked {
            let r = self.requester.map[lock];
            self.with_requester(
                lock,
                RequesterView { votes: r.votes.remove_value(from), ..r },
                seq![send_to(from, plain_message(MessageKind::Yield, lock, req))],
            )
        } else {
            self
        }
    }

    /// An arbiter has reclaimed its vote. A holder left with too few votes has
    /// lost the lock: it frees the remaining votes and reports the loss.
    pub open spec fn on_revoked(self, from: NodeId, lock: Seq<char>, req: RequestId) -> NodeView {
        if self.request_of(lock) == Some(req) {
            let r = self.requester.map[lock];
            let votes = r.votes.remove_value(from);
            if r.locked && votes.len() < self.threshold() {
                NodeView {
                    requester: self.requester.del(lock),
                    outbox: self.outbox + self.release_messages(lock, r),
                    lost: self.lost.push(lock),
                    ..self
                }
            } else {
                self.with_requester(lock, RequesterView { votes, ..r }, Seq::empty())
            }
        } else {
            self
        }
    }

    /// A message arrives.
    pub open spec fn handle(self, now: Instant, from: NodeId, msg: MessageView) -> NodeView {
        if !self.accepts(from, msg) {
            self
        } else {
            match msg.kind {
                MessageKind::Request => self.on_request(now, msg.lock, msg.req),
                MessageKind::Grant => self.on_grant(from, msg.lock, msg.req, msg.fence),
                MessageKind::Inquire => self.on_inquire(from, msg.lock, msg.req),
                MessageKind::Yield => self.on_yield(now, msg.lock, msg.req),
                MessageKind::Confirm => self.on_confirm(msg.lock, msg.fence),
                MessageKind::Release => self.on_release(now, msg.lock, msg.req, msg.fence),
                MessageKind::Renew => self.on_renew(now, msg.lock, msg.req),
                MessageKind::Revoked => self.on_revoked(from, msg.lock, msg.req),
            }
        }
    }

    // ---- the passing of time ------------------------------------------------
    /// Everything that the passing of time has sent: revocations, then the
    /// votes that move on, then renewals, then repeated requests.
    pub open spec fn tick_messages(self, now: Instant) -> Seq<OutgoingView> {
        revocations(self.arbiter, now) + regrants(self.arbiter, now) + renewals(
            self.requester,
            now,
        ) + rebroadcasts(self.requester, self.targets(), now)
    }

    /// Time passes: lapsed votes move on, empty arbiter entries are forgotten,
    /// due renewals and repeated requests go out.
    pub open spec fn tick(self, now: Instant) -> NodeView {
        NodeView {
            arbiter: pruned(reclaimed(self.arbiter, now)),
            requester: renewed(self.requester, now),
            outbox: self.outbox + self.tick_messages(now),
            ..self
        }
    }
}

/// What time does to an arbiter: a lapsed vote moves on.
pub open spec fn arbiter_after(a: ArbiterView, now: Instant) -> ArbiterView {
    if a.lapsed(now) {
        arbiter_grant_next(a, now)
    } else {
        a
    }
}

/// The arbiter entries after lapsed votes have moved on.
pub open spec fn reclaimed(t: Table<ArbiterView>, now: Instant) -> Table<ArbiterView> {
    Table {
        keys: t.keys,
        map: Map::new(
            |k: Seq<char>| t.map.contains_key(k),
            |k: Seq<char>| arbiter_after(t.map[k], now),
        ),
    }
}

/// The arbiter entries worth keeping.
pub open spec fn pruned(t: Table<ArbiterView>) -> Table<ArbiterView> {
    Table {
        keys: t.keys.filter(worth_keeping(t)),
        map: Map::new(
            |k: Seq<char>| t.map.contains_key(k) && !t.map[k].idle(),
            |k: Seq<char>| t.map[k],
        ),
    }
}

/// Whether the entry of a name holds anything.
pub open spec fn worth_keeping(t: Table<ArbiterView>) -> spec_fn(Seq<char>) -> bool {
    |k: Seq<char>| !t.map[k].idle()
}

/// What time does to a request: its next renewal moves on when it is due.
pub open spec fn requester_after(r: RequesterView, now: Instant) -> RequesterView {
    if r.renew_due(now) {
        RequesterView { next_renew: (now + RENEW_INTERVAL) as u64, ..r }
    } else {
        r
    }
}

/// The requests after due renewals.
pub open spec fn renewed(t: Table<RequesterView>, now: Instant) -> Table<RequesterView> {
    Table {
        keys: t.keys,
        map: Map::new(
            |k: Seq<char>| t.map.contains_key(k),
            |k: Seq<char>| requester_after(t.map[k], now),
        ),
    }
}

/// "Your lease lapsed", to the former votee.
pub open spec fn revoke_messages(lock: Seq<char>, a: ArbiterView, now: Instant) -> Seq<
    OutgoingView,
> {
    if a.lapsed(now) {
        let r = a.voted_for->0;
        seq![send_to(r.node, plain_message(MessageKind::Revoked, lock, r))]
    } else {
        Seq::empty()
    }
}

/// "You have my vote", to the one who gets a lapsed vote.
pub open spec fn regrant_messages(lock: Seq<char>, a: ArbiterView, now: Instant) -> Seq<
    OutgoingView,
> {
    if a.lapsed(now) {
        grant_next_messages(lock, a)
    } else {
        Seq::empty()
    }
}

/// Renewals of the votes held for `lock`.
pub open spec fn renew_messages(lock: Seq<char>, r: RequesterView, now: Instant) -> Seq<
    OutgoingView,
> {
    if r.renew_due(now) {
        send_all(r.votes, plain_message(MessageKind::Renew, lock, r.req))
    } else {
        Seq::empty()
    }
}

/// A request that is still short of votes is sent again.
pub open spec fn rebroadcast_messages(
    lock: Seq<char>,
    r: RequesterView,
    targets: Seq<NodeId>,
    now: Instant,
) -> Seq<OutgoingView> {
    if r.renew_due(now) && !r.locked {
        send_all(targets, plain_message(MessageKind::Request, lock, r.req))
    } else {
        Seq::empty()
    }
}

/// [`revoke_messages`] for a name of the table.
pub open spec fn revoke_fn(t: Table<ArbiterView>, now: Instant) -> spec_fn(Seq<char>) -> Seq<
    OutgoingView,
> {
    |k: Seq<char>| revoke_messages(k, t.map[k], now)
}

/// [`regrant_messages`] for a name of the table.
pub open spec fn regrant_fn(t: Table<ArbiterView>, now: Instant) -> spec_fn(Seq<char>) -> Seq<
    OutgoingView,
> {
    |k: Seq<char>| regrant_messages(k, t.map[k], now)
}

/// [`renew_messages`] for a name of the table.
pub open spec fn renew_fn(t: Table<RequesterView>, now: Instant) -> spec_fn(Seq<char>) -> Seq<
    OutgoingView,
> {
    |k: Seq<char>| renew_messages(k, t.map[k], now)
}

/// [`rebroadcast_messages`] for a name of the table.
pub open spec fn rebroadcast_fn(
    t: Table<RequesterView>,
    targets: Seq<NodeId>,
    now: Instant,
) -> spec_fn(Seq<char>) -> Seq<OutgoingView> {
    |k: Seq<char>| rebroadcast_messages(k, t.map[k], targets, now)
}

/// All revocations, in the order of the table.
pub open spec fn revocations(t: Table<ArbiterView>, now: Instant) -> Seq<OutgoingView> {
    concat_over(t.keys, revoke_fn(t, now))
}

/// All votes that move on, in the order of the table.
pub open spec fn regrants(t: Table<ArbiterView>, now: Instant) -> Seq<OutgoingView> {
    concat_over(t.keys, regrant_fn(t, now))
}

/// All renewals, in the order of the table.
pub open spec fn renewals(t: Table<RequesterView>, now: Instant) -> Seq<OutgoingView> {
    concat_over(t.keys, renew_fn(t, now))
}

/// All repeated requests, in the order of the table.
pub open spec fn rebroadcasts(
    t: Table<RequesterView>,
    targets: Seq<NodeId>,
    now: Instant,
) -> Seq<OutgoingView> {
    concat_over(t.keys, rebroadcast_fn(t, targets, now))
}

// ---- what every event keeps ---------------------------------------------------
/// A nonempty finite set of requests has exactly one smallest element.
pub proof fn lemma_smallest(queue: Set<RequestId>)
    requires
        queue.finite(),
        queue.len() > 0,
    ensures
        is_smallest(queue, smallest(queue)),
        forall|m: RequestId| is_smallest(queue, m) ==> m == smallest(queue),
    decreases queue.len(),
{
    let r = queue.choose();
    let rest = queue.remove(r);
    if rest.len() == 0 {
        assert(rest =~= Set::empty());
        assert forall|s: RequestId| #[trigger] queue.contains(s) implies s == r by {
            assert(!rest.contains(s));
        }
        assert(is_smallest(queue, r));
    } else {
        lemma_smallest(rest);
        let m = smallest(rest);
        if r.precedes(m) {
            assert forall|s: RequestId| #[trigger] queue.contains(s) implies s == r || r.precedes(
                s,
            ) by {
                if s != r {
                    assert(rest.contains(s));
                }
            }
            assert(is_smallest(queue, r));
        } else {
            assert(r != m);
            assert forall|s: RequestId| #[trigger] queue.contains(s) implies s == m || m.precedes(
                s,
            ) by {
                if s != r {
                    assert(rest.contains(s));
                }
            }
            assert(is_smallest(queue, m));
        }
    }
    assert forall|m: RequestId| is_smallest(queue, m) implies m == smallest(queue) by {
        let n = smallest(queue);
        assert(is_smallest(queue, n));
        assert(queue.contains(m) && queue.contains(n));
    }
}

/// Giving the vote to the next in line keeps an arbiter consistent.
pub proof fn lemma_grant_next_wf(a: ArbiterView, now: Instant)
    requires
        a.queue.finite(),
    ensures
        arbiter_grant_next(a, now).wf(),
{
    if !(a.queue =~= Set::empty()) {
        if a.queue.len() == 0 {
            assert(a.queue =~= Set::empty());
        }
        lemma_smallest(a.queue);
    }
}

impl<V> Table<V> {
    /// Adding or replacing an entry keeps a table well-formed.
    pub proof fn lemma_put_wf(self, key: Seq<char>, value: V)
        requires
            self.wf(),
        ensures
            self.put(key, value).wf(),
            self.put(key, value).keys.contains(key),
    {
        let t = self.put(key, value);
        if !self.keys.contains(key) {
            assert(t.keys[t.keys.len() - 1] == key);
            assert forall|k: Seq<char>| #[trigger] t.keys.contains(k) <==> (self.keys.contains(k)
                || k == key) by {
                if self.keys.contains(k) {
                    assert(t.keys[self.keys.index_of(k)] == k);
                }
            }
        }
    }

    /// Forgetting an entry keeps a table well-formed.
    pub proof fn lemma_del_wf(self, key: Seq<char>)
        requires
            self.wf(),
        ensures
            self.del(key).wf(),
    {
        let t = self.del(key);
        if self.keys.contains(key) {
            let i = self.keys.index_of(key);
            assert(self.keys[i] == key);
            assert forall|k: Seq<char>| #[trigger] t.keys.contains(k) <==> (self.keys.contains(k)
                && k != key) by {
                if self.keys.contains(k) && k != key {
                    let j = self.keys.index_of(k);
                    if j < i {
                        assert(t.keys[j] == k);
                    } else {
                        assert(t.keys[j - 1] == k);
                    }
                }
            }
        }
    }
}

impl NodeView {
    /// Replacing one arbiter entry by a consistent one keeps the node
    /// consistent, whatever is sent.
    pub proof fn lemma_with_arbiter_wf(
        self,
        lock: Seq<char>,
        a: ArbiterView,
        out: Seq<OutgoingView>,
    )
        requires
            self.wf(),
            a.wf(),
        ensures
            self.with_arbiter(lock, a, out).wf(),
    {
        self.arbiter.lemma_put_wf(lock, a);
    }

    /// Replacing one request by a fitting one keeps the node consistent.
    pub proof fn lemma_with_requester_wf(
        self,
        lock: Seq<char>,
        r: RequesterView,
        out: Seq<OutgoingView>,
    )
        requires
            self.wf(),
            self.requester_wf(r),
        ensures
            self.with_requester(lock, r, out).wf(),
    {
        self.requester.lemma_put_wf(lock, r);
    }

    /// A new node is consistent.
    pub proof fn lemma_fresh_wf(id: NodeId, policy: QuorumPolicy, members: Seq<NodeId>)
        requires
            valid_members(id, members),
        ensures
            NodeView::fresh(id, policy, members).wf(),
    {
    }

    /// Requesting keeps the node consistent.
    pub proof fn lemma_request_wf(self, now: Instant, lock: Seq<char>)
        requires
            self.wf(),
            self.lamport < u64::MAX,
        ensures
            self.request(now, lock).wf(),
    {
        if !self.requester.map.contains_key(lock) {
            lemma_threshold_positive(self.policy, self.id, self.members);
            let n = NodeView { lamport: self.next_request().ts, ..self };
            assert(n.wf());
            let r = self.request(now, lock).requester.map[lock];
            assert(n.requester_wf(r));
            n.lemma_with_requester_wf(lock, r, Seq::empty());
        }
    }

    /// Releasing keeps the node consistent.
    pub proof fn lemma_release_wf(self, lock: Seq<char>)
        requires
            self.wf(),
        ensures
            self.release(lock).wf(),
    {
        self.requester.lemma_del_wf(lock);
    }

    /// Every inbound message keeps the node consistent.
    pub proof fn lemma_handle_wf(self, now: Instant, from: NodeId, msg: MessageView)
        requires
            self.wf(),
        ensures
            self.handle(now, from, msg).wf(),
    {
        let lock = msg.lock;
        let req = msg.req;
        let a = self.arbiter_of(lock);
        assert(a.wf());
        if self.accepts(from, msg) {
            match msg.kind {
                MessageKind::Request => {
                    let n = NodeView {
                        lamport: if req.ts > self.lamport {
                            req.ts
                        } else {
                            self.lamport
                        },
                        ..self
                    };
                    assert(n.wf());
                    n.lemma_with_arbiter_wf(
                        lock,
                        arbiter_request(a, req, now),
                        request_messages(lock, a, req),
                    );
                },
                MessageKind::Grant => {
                    if self.targets().contains(from) && self.request_of(lock) == Some(req) {
                        let r = self.requester.map[lock];
                        let n = self.on_grant(from, lock, req, msg.fence);
                        lemma_vote_added(r.votes, from);
                        assert(self.requester_wf(n.requester.map[lock]));
                        self.lemma_with_requester_wf(lock, n.requester.map[lock], Seq::empty());
                    }
                },
                MessageKind::Inquire => {
                    if self.request_of(lock) == Some(req) && !self.requester.map[lock].locked {
                        let r = self.requester.map[lock];
                        lemma_vote_removed(r.votes, from);
                        let n = self.on_inquire(from, lock, req);
                        self.lemma_with_requester_wf(lock, n.requester.map[lock], Seq::empty());
                    }
                },
                MessageKind::Yield => {
                    if a.voted_for == Some(req) {
                        let b = arbiter_yielded(a, req);
                        lemma_grant_next_wf(b, now);
                        self.lemma_with_arbiter_wf(
                            lock,
                            arbiter_grant_next(b, now),
                            Seq::empty(),
                        );
                    }
                },
                MessageKind::Confirm => {
                    let b = ArbiterView { fence_max: max_fence(a.fence_max, msg.fence), ..a };
                    self.lemma_with_arbiter_wf(lock, b, Seq::empty());
                },
                MessageKind::Release => {
                    let b = arbiter_released(a, req, msg.fence);
                    if a.voted_for == Some(req) {
                        lemma_grant_next_wf(b, now);
                        self.lemma_with_arbiter_wf(
                            lock,
                            arbiter_grant_next(b, now),
                            Seq::empty(),
                        );
                    } else {
                        assert(b.wf());
                        self.lemma_with_arbiter_wf(lock, b, Seq::empty());
                    }
                },
                MessageKind::Renew => {
                    if a.voted_for == Some(req) {
                        let b = ArbiterView { lease: (now + LEASE) as u64, ..a };
                        self.lemma_with_arbiter_wf(lock, b, Seq::empty());
                    }
                },
                MessageKind::Revoked => {
                    if self.request_of(lock) == Some(req) {
                        let r = self.requester.map[lock];
                        lemma_vote_removed(r.votes, from);
                        let n = self.on_revoked(from, lock, req);
                        if n.requester.map.contains_key(lock) {
                            self.lemma_with_requester_wf(
                                lock,
                                n.requester.map[lock],
                                Seq::empty(),
                            );
                        } else {
                            self.requester.lemma_del_wf(lock);
                        }
                    }
                },
            }
        }
    }

    /// The passing of time keeps the node consistent.
    pub proof fn lemma_tick_wf(self, now: Instant)
        requires
            self.wf(),
        ensures
            self.tick(now).wf(),
    {
        let t = reclaimed(self.arbiter, now);
        lemma_filter_no_duplicates(t.keys, worth_keeping(t));
        assert(t.wf());
        assert(pruned(t).wf());
        assert forall|k: Seq<char>| #[trigger] pruned(t).map.contains_key(k) implies pruned(
            t,
        ).map[k].wf() by {
            assert(self.arbiter.map.contains_key(k));
            lemma_grant_next_wf(self.arbiter.map[k], now);
        }
        assert(renewed(self.requester, now).wf());
    }
}

/// One more key adds what `f` gives for it.
pub proof fn lemma_concat_step(
    keys: Seq<Seq<char>>,
    i: int,
    f: spec_fn(Seq<char>) -> Seq<OutgoingView>,
)
    requires
        0 <= i < keys.len(),
    ensures
        concat_over(keys.take(i + 1), f) == concat_over(keys.take(i), f) + f(keys[i]),
{
    assert(keys.take(i + 1).drop_last() =~= keys.take(i));
    assert(keys.take(i + 1).last() == keys[i]);
}

/// Filtering keeps exactly the elements that satisfy the predicate, each once.
pub proof fn lemma_filter_no_duplicates<A>(s: Seq<A>, keep: spec_fn(A) -> bool)
    ensures
        s.no_duplicates() ==> s.filter(keep).no_duplicates(),
        forall|x: A| #[trigger] s.filter(keep).contains(x) <==> s.contains(x) && keep(x),
    decreases s.len(),
{
    reveal(Seq::filter);
    if s.len() > 0 {
        let init = s.drop_last();
        lemma_filter_no_duplicates(init, keep);
        let f = init.filter(keep);
        assert(s.filter(keep) == if keep(s.last()) {
            f.push(s.last())
        } else {
            f
        });
        assert forall|x: A| #[trigger] s.filter(keep).contains(x) <==> s.contains(x) && keep(x) by {
            assert(s.contains(x) <==> init.contains(x) || x == s.last()) by {
                if s.contains(x) && x != s.last() {
                    let i = s.index_of(x);
                    assert(init[i] == x);
                }
                if init.contains(x) {
                    assert(s[init.index_of(x)] == x);
                }
                assert(s[s.len() - 1] == s.last());
            }
            if keep(s.last()) {
                assert(f.push(s.last())[f.len() as int] == s.last());
                assert(f.push(s.last()).contains(x) <==> f.contains(x) || x == s.last()) by {
                    if f.contains(x) {
                        assert(f.push(s.last())[f.index_of(x)] == x);
                    }
                }
            }
        }
        if s.no_duplicates() {
            assert(init.no_duplicates());
            assert(!init.contains(s.last()));
            assert(!f.contains(s.last()));
        }
    }
}

/// A quorum needs at least one vote.
pub proof fn lemma_threshold_positive(policy: QuorumPolicy, id: NodeId, members: Seq<NodeId>)
    requires
        valid_members(id, members),
    ensures
        quorum_threshold(policy, id, members) > 0,
        quorum_threshold(policy, id, members) <= quorum_targets(policy, id, members).len(),
{
    lemma_grid_members(id, members);
}

/// Counting a vote keeps the votes free of duplicates.
pub proof fn lemma_vote_added(votes: Seq<NodeId>, from: NodeId)
    requires
        votes.no_duplicates(),
    ensures
        votes.contains(from) || votes.push(from).no_duplicates(),
        forall|x: NodeId| #[trigger]
            votes.push(from).contains(x) <==> votes.contains(x) || x == from,
{
    assert(votes.push(from)[votes.len() as int] == from);
    assert forall|x: NodeId| #[trigger] votes.push(from).contains(x) <==> votes.contains(x) || x
        == from by {
        if votes.contains(x) {
            assert(votes.push(from)[votes.index_of(x)] == x);
        }
    }
}

/// Dropping a vote drops that vote alone.
pub proof fn lemma_vote_removed(votes: Seq<NodeId>, from: NodeId)
    requires
        votes.no_duplicates(),
    ensures
        votes.remove_value(from).no_duplicates(),
        votes.remove_value(from).len() <= votes.len(),
        votes.contains(from) ==> votes.remove_value(from).len() == votes.len() - 1,
        forall|x: NodeId| #[trigger]
            votes.remove_value(from).contains(x) <==> votes.contains(x) && x != from,
{
    let w = votes.remove_value(from);
    votes.index_of_first_ensures(from);
    match votes.index_of_first(from) {
        Some(i) => {
            assert(w == votes.remove(i));
            assert forall|x: NodeId| #[trigger] w.contains(x) <==> votes.contains(x) && x
                != from by {
                if votes.contains(x) && x != from {
                    let j = votes.index_of(x);
                    if j < i {
                        assert(w[j] == x);
                    } else {
                        assert(w[j - 1] == x);
                    }
                }
            }
        },
        None => {},
    }
}

} // verus!
