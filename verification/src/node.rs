//! A single node's protocol state machine.
use vstd::prelude::*;

use crate::lock_map::LockMap;
use crate::model::{
    arbiter_after, arbiter_grant_next, arbiter_request, concat_over, is_smallest,
    lemma_concat_step, lemma_filter_no_duplicates, lemma_smallest, max_fence, pruned,
    rebroadcast_fn, rebroadcasts, reclaimed, regrant_fn, regrants, renew_fn, renewals, renewed,
    requester_after, revocations, revoke_fn, send_all, send_to, smallest, worth_keeping,
    ArbiterView, NodeView, RequesterView,
};
use crate::quorum::{grid_quorum, quorum_targets, valid_members, QuorumPolicy};
use crate::types::{
    fenced_message, outgoing_views, Fence, Instant, Lamport, LockId, Message, MessageKind, NodeId,
    Outgoing, RequestId, LEASE, RENEW_INTERVAL,
};

verus! {

/// Per-lock state when the node acts as an arbiter (a voter).
struct ArbiterState {
    voted_for: Option<RequestId>,
    inquired: bool,
    queue: Vec<RequestId>,
    fence_max: Fence,
    lease: Instant,
}

impl View for ArbiterState {
    type V = ArbiterView;

    closed spec fn view(&self) -> ArbiterView {
        ArbiterView {
            voted_for: self.voted_for,
            inquired: self.inquired,
            queue: self.queue@.to_set(),
            fence_max: self.fence_max,
            lease: self.lease,
        }
    }
}

/// Per-lock state when the node acts as a requester (wants the lock).
struct RequesterState {
    req: RequestId,
    votes: Vec<NodeId>,
    best_fence: Fence,
    locked: bool,
    next_renew: Instant,
}

impl View for RequesterState {
    type V = RequesterView;

    closed spec fn view(&self) -> RequesterView {
        RequesterView {
            req: self.req,
            votes: self.votes@,
            best_fence: self.best_fence,
            locked: self.locked,
            next_renew: self.next_renew,
        }
    }
}

/// The content of a list of acquired locks.
pub open spec fn acquired_views(acquired: Seq<(LockId, Fence)>) -> Seq<(Seq<char>, Fence)> {
    acquired.map_values(|p: (LockId, Fence)| (p.0@, p.1))
}

/// The content of a list of lock names.
pub open spec fn lock_views(locks: Seq<LockId>) -> Seq<Seq<char>> {
    locks.map_values(|l: LockId| l@)
}

/// A single node's protocol state machine. Pure logic: no I/O, no clocks.
///
/// Drive it by calling [`Node::request`] and [`Node::release`] to express
/// intent, [`Node::handle`] to feed it an inbound message, then
/// [`Node::drain_outbox`] to collect what it wants to send.
/// [`Node::take_acquired`] reports locks the node has just entered, with their
/// fence tokens. What each call does is the function of the same name of
/// [`NodeView`].
pub struct Node {
    pub id: NodeId,
    policy: QuorumPolicy,
    members: Vec<NodeId>,
    targets: Vec<NodeId>,
    threshold: usize,
    lamport: Lamport,
    arbiter: LockMap<ArbiterState>,
    requester: LockMap<RequesterState>,
    outbox: Vec<Outgoing>,
    acquired: Vec<(LockId, Fence)>,
    lost: Vec<LockId>,
}

impl View for Node {
    type V = NodeView;

    closed spec fn view(&self) -> NodeView {
        NodeView {
            id: self.id,
            policy: self.policy,
            members: self.members@,
            lamport: self.lamport,
            arbiter: self.arbiter@,
            requester: self.requester@,
            outbox: outgoing_views(self.outbox@),
            acquired: acquired_views(self.acquired@),
            lost: lock_views(self.lost@),
        }
    }
}

/// Whether `id` is in the list.
pub(crate) fn contains_node(list: &Vec<NodeId>, id: NodeId) -> (b: bool)
    ensures
        b == list@.contains(id),
{
    let mut i: usize = 0;
    while i < list.len()
        invariant
            i <= list@.len(),
            forall|j: int| 0 <= j < i ==> list@[j] != id,
        decreases list@.len() - i,
    {
        if list[i] == id {
            return true;
        }
        i += 1;
    }
    false
}

/// Take `id` out of a list in which it occurs at most once.
pub(crate) fn remove_node(list: &mut Vec<NodeId>, id: NodeId)
    ensures
        final(list)@ == old(list)@.remove_value(id),
{
    let mut i: usize = 0;
    while i < list.len()
        invariant
            list@ == old(list)@,
            i <= list@.len(),
            forall|j: int| 0 <= j < i ==> list@[j] != id,
        decreases list@.len() - i,
    {
        if list[i] == id {
            proof {
                list@.index_of_first_ensures(id);
                assert(list@.contains(id));
            }
            let _ = list.remove(i);
            return ;
        }
        i += 1;
    }
    proof {
        list@.index_of_first_ensures(id);
    }
}

/// Add a request to a queue, unless it is there.
fn queue_insert(queue: &mut Vec<RequestId>, req: RequestId)
    ensures
        final(queue)@.to_set() == old(queue)@.to_set().insert(req),
        final(queue)@ == if old(queue)@.contains(req) {
            old(queue)@
        } else {
            old(queue)@.push(req)
        },
{
    let mut i: usize = 0;
    while i < queue.len()
        invariant
            queue@ == old(queue)@,
            i <= queue@.len(),
            forall|j: int| 0 <= j < i ==> queue@[j] != req,
        decreases queue@.len() - i,
    {
        if queue[i] == req {
            assert(queue@.contains(req));
            assert(queue@.to_set() =~= queue@.to_set().insert(req));
            return ;
        }
        i += 1;
    }
    queue.push(req);
    proof {
        let q = old(queue)@;
        assert(queue@ == q.push(req));
        assert forall|r: RequestId| queue@.to_set().contains(r) <==> q.to_set().insert(
            req,
        ).contains(r) by {
            if q.contains(r) {
                assert(q.push(req)[q.index_of(r)] == r);
            }
            assert(q.push(req)[q.len() as int] == req);
        }
        assert(queue@.to_set() =~= q.to_set().insert(req));
    }
}

/// Take a request out of a queue.
fn queue_remove(queue: &mut Vec<RequestId>, req: RequestId)
    ensures
        final(queue)@.to_set() == old(queue)@.to_set().remove(req),
{
    let mut kept: Vec<RequestId> = Vec::new();
    let mut i: usize = 0;
    while i < queue.len()
        invariant
            queue@ == old(queue)@,
            i <= queue@.len(),
            forall|r: RequestId| #[trigger]
                kept@.contains(r) <==> queue@.take(i as int).contains(r) && r != req,
        decreases queue@.len() - i,
    {
        let r = queue[i];
        let ghost before = kept@;
        if r != req {
            kept.push(r);
        }
        proof {
            let t = queue@.take(i as int);
            let u = queue@.take(i + 1);
            assert(u =~= t.push(r));
            assert forall|s: RequestId| #[trigger] kept@.contains(s) <==> u.contains(s) && s
                != req by {
                assert(u.contains(s) <==> t.contains(s) || s == r) by {
                    if t.contains(s) {
                        assert(u[t.index_of(s)] == s);
                    }
                    assert(u[i as int] == r);
                }
                if r != req {
                    assert(kept@ == before.push(r));
                    assert(kept@.contains(s) <==> before.contains(s) || s == r) by {
                        if before.contains(s) {
                            assert(kept@[before.index_of(s)] == s);
                        }
                        assert(kept@[before.len() as int] == r);
                    }
                }
            }
        }
        i += 1;
    }
    proof {
        assert(queue@.take(i as int) =~= queue@);
        assert(kept@.to_set() =~= queue@.to_set().remove(req));
    }
    *queue = kept;
}

/// The first request in line, if there is one.
fn queue_smallest(queue: &Vec<RequestId>) -> (r: Option<RequestId>)
    ensures
        match r {
            None => queue@.to_set() =~= Set::empty(),
            Some(m) => queue@.to_set().contains(m) && m == smallest(queue@.to_set()),
        },
{
    if queue.len() == 0 {
        return None;
    }
    let mut m = queue[0];
    let mut i: usize = 1;
    while i < queue.len()
        invariant
            1 <= i <= queue@.len(),
            queue@.contains(m),
            forall|j: int| 0 <= j < i ==> #[trigger] queue@[j] == m || m.precedes(queue@[j]),
        decreases queue@.len() - i,
    {
        if queue[i].before(m) {
            m = queue[i];
        }
        i += 1;
    }
    proof {
        let q = queue@.to_set();
        assert(q.contains(m));
        assert(is_smallest(q, m));
        queue@.lemma_cardinality_of_set();
        assert(q.len() > 0);
        lemma_smallest(q);
    }
    Some(m)
}

impl ArbiterState {
    /// An arbiter that has heard nothing of the lock.
    fn fresh() -> (a: ArbiterState)
        ensures
            a@ == ArbiterView::fresh(),
    {
        let a = ArbiterState {
            voted_for: None,
            inquired: false,
            queue: Vec::new(),
            fence_max: 0,
            lease: 0,
        };
        assert(a@.queue =~= Set::empty());
        a
    }

    /// Give the vote to the first in line, or free it; returns the new votee.
    fn grant_next(&mut self, now: Instant) -> (r: Option<RequestId>)
        requires
            !(old(self)@.queue =~= Set::empty()) ==> now + LEASE <= u64::MAX,
        ensures
            final(self)@ == arbiter_grant_next(old(self)@, now),
            match r {
                None => old(self)@.queue =~= Set::empty(),
                Some(m) => !(old(self)@.queue =~= Set::empty()) && m == smallest(old(self)@.queue),
            },
            final(self)@.fence_max == old(self)@.fence_max,
    {
        self.inquired = false;
        match queue_smallest(&self.queue) {
            Some(next) => {
                queue_remove(&mut self.queue, next);
                self.voted_for = Some(next);
                self.lease = now + LEASE;
                Some(next)
            },
            None => {
                self.voted_for = None;
                None
            },
        }
    }

    /// Record a fence token.
    fn record(&mut self, fence: Fence)
        ensures
            final(self)@ == (ArbiterView {
                fence_max: max_fence(old(self)@.fence_max, fence),
                ..old(self)@
            }),
    {
        if fence > self.fence_max {
            self.fence_max = fence;
        }
    }

    /// Whether nothing is lost by forgetting this entry.
    fn is_idle(&self) -> (b: bool)
        ensures
            b == self@.idle(),
    {
        proof {
            if self.queue@.len() > 0 {
                assert(self@.queue.contains(self.queue@[0]));
            } else {
                assert(self@.queue =~= Set::empty());
            }
        }
        self.voted_for.is_none() && self.queue.len() == 0 && self.fence_max == 0
    }
}

/// Listing one more outgoing message.
proof fn lemma_views_push(out: Seq<Outgoing>, o: Outgoing)
    ensures
        outgoing_views(out.push(o)) == outgoing_views(out).push(o@),
        outgoing_views(out.push(o)) == outgoing_views(out) + seq![o@],
{
    assert(outgoing_views(out.push(o)) =~= outgoing_views(out).push(o@));
    assert(outgoing_views(out.push(o)) =~= outgoing_views(out) + seq![o@]);
}

/// Append one message to a list of outgoing messages.
fn push_out(
    out: &mut Vec<Outgoing>,
    to: NodeId,
    kind: MessageKind,
    lock: &str,
    req: RequestId,
    fence: Fence,
)
    requires
        kind.has_fence() || fence == 0,
    ensures
        outgoing_views(final(out)@) == outgoing_views(old(out)@) + seq![
            send_to(to, fenced_message(kind, lock@, req, fence)),
        ],
{
    let msg = Message::from_parts(kind, lock.to_owned(), req, fence);
    proof {
        assert(msg@ =~= fenced_message(kind, lock@, req, fence));
        lemma_views_push(out@, Outgoing { to, msg });
    }
    out.push(Outgoing { to, msg });
}

/// Append one message per recipient to a list of outgoing messages.
fn push_all(
    out: &mut Vec<Outgoing>,
    to: &Vec<NodeId>,
    kind: MessageKind,
    lock: &str,
    req: RequestId,
    fence: Fence,
)
    requires
        kind.has_fence() || fence == 0,
    ensures
        outgoing_views(final(out)@) == outgoing_views(old(out)@) + send_all(
            to@,
            fenced_message(kind, lock@, req, fence),
        ),
{
    let ghost msg = fenced_message(kind, lock@, req, fence);
    let mut i: usize = 0;
    assert(outgoing_views(out@) =~= outgoing_views(old(out)@) + send_all(to@.take(0), msg));
    while i < to.len()
        invariant
            kind.has_fence() || fence == 0,
            msg == fenced_message(kind, lock@, req, fence),
            i <= to@.len(),
            outgoing_views(out@) == outgoing_views(old(out)@) + send_all(to@.take(i as int), msg),
        decreases to@.len() - i,
    {
        push_out(out, to[i], kind, lock, req, fence);
        i += 1;
        assert(outgoing_views(out@) =~= outgoing_views(old(out)@) + send_all(
            to@.take(i as int),
            msg,
        ));
    }
    assert(to@.take(i as int) =~= to@);
}

/// Move lapsed votes on; returns the revocations and the new grants.
fn reclaim(map: &mut LockMap<ArbiterState>, now: Instant) -> (out: (Vec<Outgoing>, Vec<Outgoing>))
    requires
        old(map).wf(),
        now + LEASE <= u64::MAX,
    ensures
        final(map).wf(),
        final(map)@ == reclaimed(old(map)@, now),
        outgoing_views(out.0@) == revocations(old(map)@, now),
        outgoing_views(out.1@) == regrants(old(map)@, now),
{
    let ghost t = map@;
    let mut revoked: Vec<Outgoing> = Vec::new();
    let mut grants: Vec<Outgoing> = Vec::new();
    let mut i: usize = 0;
    proof {
        map.lemma_wf_view();
        assert(outgoing_views(revoked@) =~= Seq::empty());
        assert(outgoing_views(grants@) =~= Seq::empty());
    }
    while i < map.len()
        invariant
            map.wf(),
            now + LEASE <= u64::MAX,
            t.wf(),
            map@.wf(),
            map@.keys == t.keys,
            i <= t.keys.len(),
            forall|j: int|
                0 <= j < t.keys.len() ==> map@.map[#[trigger] t.keys[j]] == (if j < i {
                    arbiter_after(t.map[t.keys[j]], now)
                } else {
                    t.map[t.keys[j]]
                }),
            outgoing_views(revoked@) == concat_over(t.keys.take(i as int), revoke_fn(t, now)),
            outgoing_views(grants@) == concat_over(t.keys.take(i as int), regrant_fn(t, now)),
        decreases t.keys.len() - i,
    {
        let ghost before = map@;
        let ghost key = t.keys[i as int];
        let lock = map.name(i).clone();
        let a = map.value_mut(i);
        if let Some(expired) = a.voted_for {
            if now >= a.lease {
                push_out(
                    &mut revoked,
                    expired.node,
                    MessageKind::Revoked,
                    lock.as_str(),
                    expired,
                    0,
                );
                if let Some(next) = a.grant_next(now) {
                    push_out(
                        &mut grants,
                        next.node,
                        MessageKind::Grant,
                        lock.as_str(),
                        next,
                        a.fence_max,
                    );
                }
            }
        }
        proof {
            assert(map@ == before.put(key, arbiter_after(t.map[key], now)));
            before.lemma_put_wf(key, arbiter_after(t.map[key], now));
            lemma_concat_step(t.keys, i as int, revoke_fn(t, now));
            lemma_concat_step(t.keys, i as int, regrant_fn(t, now));
        }
        i += 1;
    }
    proof {
        assert(t.keys.take(i as int) =~= t.keys);
        assert(map@.map =~= reclaimed(t, now).map) by {
            assert forall|k: Seq<char>| t.map.contains_key(k) implies map@.map[k]
                == #[trigger] arbiter_after(t.map[k], now) by {
                assert(t.keys[t.keys.index_of(k)] == k);
            }
        }
    }
    (revoked, grants)
}

/// Forget the entries that hold nothing.
fn prune(map: &mut LockMap<ArbiterState>)
    requires
        old(map).wf(),
    ensures
        final(map).wf(),
        final(map)@ == pruned(old(map)@),
{
    let ghost t = map@;
    let ghost keep = worth_keeping(t);
    let ghost mut done: int = 0;
    let mut i: usize = 0;
    proof {
        map.lemma_wf_view();
        assert(t.keys.take(0) =~= Seq::empty());
        reveal(Seq::filter);
        assert(map@.keys =~= t.keys.take(0).filter(keep) + t.keys.skip(0));
    }
    while i < map.len()
        invariant
            map.wf(),
            map@.wf(),
            t.wf(),
            keep == worth_keeping(t),
            0 <= done <= t.keys.len(),
            map@.keys == t.keys.take(done).filter(keep) + t.keys.skip(done),
            i == t.keys.take(done).filter(keep).len(),
            forall|k: Seq<char>| #[trigger]
                map@.map.contains_key(k) ==> t.map.contains_key(k) && map@.map[k] == t.map[k],
        decreases map@.keys.len() - i,
    {
        let ghost before = map@;
        let ghost key = t.keys[done];
        proof {
            reveal(Seq::filter);
            assert(t.keys.take(done + 1).drop_last() =~= t.keys.take(done));
            assert(t.keys.take(done + 1).last() == key);
            assert(t.keys.skip(done)[0] == key);
            assert(before.keys[i as int] == key);
        }
        if map.value(i).is_idle() {
            let _ = map.remove_at(i);
            proof {
                before.lemma_del_wf(key);
                assert(map@.keys =~= t.keys.take(done + 1).filter(keep) + t.keys.skip(done + 1));
            }
        } else {
            i += 1;
            assert(map@.keys =~= t.keys.take(done + 1).filter(keep) + t.keys.skip(done + 1));
        }
        proof {
            done = done + 1;
        }
    }
    proof {
        assert(t.keys.skip(done).len() == 0);
        assert(t.keys.take(done) =~= t.keys);
        assert(map@.keys =~= t.keys.filter(keep));
        lemma_filter_no_duplicates(t.keys, keep);
        assert(map@.map =~= pruned(t).map);
    }
}

/// Move due renewals on; returns the renewals and the repeated requests.
fn renew(map: &mut LockMap<RequesterState>, targets: &Vec<NodeId>, now: Instant) -> (out: (
    Vec<Outgoing>,
    Vec<Outgoing>,
))
    requires
        old(map).wf(),
        now + RENEW_INTERVAL <= u64::MAX,
    ensures
        final(map).wf(),
        final(map)@ == renewed(old(map)@, now),
        outgoing_views(out.0@) == renewals(old(map)@, now),
        outgoing_views(out.1@) == rebroadcasts(old(map)@, targets@, now),
{
    let ghost t = map@;
    let mut renews: Vec<Outgoing> = Vec::new();
    let mut requests: Vec<Outgoing> = Vec::new();
    let mut i: usize = 0;
    proof {
        map.lemma_wf_view();
        assert(outgoing_views(renews@) =~= Seq::empty());
        assert(outgoing_views(requests@) =~= Seq::empty());
    }
    while i < map.len()
        invariant
            map.wf(),
            now + RENEW_INTERVAL <= u64::MAX,
            t.wf(),
            map@.wf(),
            map@.keys == t.keys,
            i <= t.keys.len(),
            forall|j: int|
                0 <= j < t.keys.len() ==> map@.map[#[trigger] t.keys[j]] == (if j < i {
                    requester_after(t.map[t.keys[j]], now)
                } else {
                    t.map[t.keys[j]]
                }),
            outgoing_views(renews@) == concat_over(t.keys.take(i as int), renew_fn(t, now)),
            outgoing_views(requests@) == concat_over(
                t.keys.take(i as int),
                rebroadcast_fn(t, targets@, now),
            ),
        decreases t.keys.len() - i,
    {
        let ghost before = map@;
        let ghost key = t.keys[i as int];
        let lock = map.name(i).clone();
        let r = map.value_mut(i);
        if now >= r.next_renew {
            r.next_renew = now + RENEW_INTERVAL;
            push_all(&mut renews, &r.votes, MessageKind::Renew, lock.as_str(), r.req, 0);
            if !r.locked {
                push_all(
                    &mut requests,
                    targets,
                    MessageKind::Request,
                    lock.as_str(),
                    r.req,
                    0,
                );
            }
        }
        proof {
            assert(map@ == before.put(key, requester_after(t.map[key], now)));
            before.lemma_put_wf(key, requester_after(t.map[key], now));
            lemma_concat_step(t.keys, i as int, renew_fn(t, now));
            lemma_concat_step(t.keys, i as int, rebroadcast_fn(t, targets@, now));
        }
        i += 1;
    }
    proof {
        assert(t.keys.take(i as int) =~= t.keys);
        assert(map@.map =~= renewed(t, now).map) by {
            assert forall|k: Seq<char>| t.map.contains_key(k) implies map@.map[k]
                == #[trigger] requester_after(t.map[k], now) by {
                assert(t.keys[t.keys.index_of(k)] == k);
            }
        }
    }
    (renews, requests)
}

impl Node {
    /// The private bookkeeping agrees with the node's content.
    spec fn inv(&self) -> bool {
        &&& self.arbiter.wf()
        &&& self.requester.wf()
        &&& self.targets@ == self@.targets()
        &&& self.threshold == self@.threshold()
    }

    /// The node is consistent.
    pub closed spec fn wf(&self) -> bool {
        self.inv() && self@.wf()
    }

    /// A consistent node has a consistent content.
    pub proof fn lemma_wf_view(&self)
        requires
            self.wf(),
        ensures
            self@.wf(),
    {
    }

    /// Create a node whose quorums are strict majorities. `members` is the full
    /// cluster membership, including `id`, with no duplicates.
    pub fn new(id: NodeId, members: Vec<NodeId>) -> (n: Node)
        requires
            valid_members(id, members@),
        ensures
            n.wf(),
            n@ == NodeView::fresh(id, QuorumPolicy::Majority, members@),
    {
        Node::with_policy(id, members, QuorumPolicy::Majority)
    }

    /// Create a node with the given quorum policy.
    pub fn with_policy(id: NodeId, members: Vec<NodeId>, policy: QuorumPolicy) -> (n: Node)
        requires
            valid_members(id, members@),
        ensures
            n.wf(),
            n@ == NodeView::fresh(id, policy, members@),
    {
        let targets = match policy {
            QuorumPolicy::Majority => members.clone(),
            QuorumPolicy::Grid => grid_quorum(id, &members),
        };
        assert(targets@ =~= quorum_targets(policy, id, members@));
        let threshold: usize = match policy {
            QuorumPolicy::Majority => members.len() / 2 + 1,
            QuorumPolicy::Grid => targets.len(),
        };
        let n = Node {
            id,
            policy,
            members,
            targets,
            threshold,
            lamport: 0,
            arbiter: LockMap::new(),
            requester: LockMap::new(),
            outbox: Vec::new(),
            acquired: Vec::new(),
            lost: Vec::new(),
        };
        proof {
            NodeView::lemma_fresh_wf(id, policy, members@);
            assert(n@ =~= NodeView::fresh(id, policy, members@));
        }
        n
    }

    /// The node's id.
    pub fn id(&self) -> (id: NodeId)
        ensures
            id == self@.id,
    {
        self.id
    }

    /// The quorum size: how many votes the node needs to hold a lock.
    pub fn quorum_size(&self) -> (n: usize)
        requires
            self.wf(),
        ensures
            n == self@.threshold(),
    {
        self.threshold
    }

    /// The node's Lamport clock. A new request needs a clock below its maximum.
    pub fn clock(&self) -> (ts: Lamport)
        ensures
            ts == self@.lamport,
    {
        self.lamport
    }

    /// Begin acquiring `lock`: asks every member of the node's quorum for its
    /// vote. The lock is held once [`Node::take_acquired`] reports it.
    /// Re-requesting a lock already being acquired or held is idempotent.
    pub fn request(&mut self, now: Instant, lock: &str)
        requires
            old(self).wf(),
            !old(self)@.requester.map.contains_key(lock@) ==> old(self)@.lamport < u64::MAX && now
                + RENEW_INTERVAL <= u64::MAX,
        ensures
            final(self).wf(),
            final(self)@ == old(self)@.request(now, lock@),
    {
        if self.requester.find(lock).is_some() {
            return ;
        }
        self.lamport = self.lamport + 1;
        let req = RequestId { ts: self.lamport, node: self.id };
        self.requester.push(
            lock.to_owned(),
            RequesterState {
                req,
                votes: Vec::new(),
                best_fence: 0,
                locked: false,
                next_renew: now + RENEW_INTERVAL,
            },
        );
        push_all(&mut self.outbox, &self.targets, MessageKind::Request, lock, req, 0);
        proof {
            old(self)@.lemma_request_wf(now, lock@);
            assert(self@ =~= old(self)@.request(now, lock@));
        }
    }

    /// Release a held (or in-flight) lock, freeing votes at every arbiter that
    /// granted to it. The current fence token rides along so arbiters record it
    /// before handing the lock to the next holder.
    pub fn release(&mut self, now: Instant, lock: &str)
        requires
            old(self).wf(),
        ensures
            final(self).wf(),
            final(self)@ == old(self)@.release(lock@),
    {
        if let Some(state) = self.requester.remove(lock) {
            push_all(
                &mut self.outbox,
                &self.targets,
                MessageKind::Release,
                lock,
                state.req,
                state.best_fence,
            );
        }
        proof {
            old(self)@.lemma_release_wf(lock@);
            if !old(self)@.requester.map.contains_key(lock@) {
                assert(self@.requester.map =~= old(self)@.requester.map);
            }
            assert(self@ =~= old(self)@.release(lock@));
        }
    }

    /// Feed an inbound message. `from` is the node that sent it; `now` is the
    /// caller's current time.
    pub fn handle(&mut self, now: Instant, from: NodeId, msg: Message)
        requires
            old(self).wf(),
            old(self)@.gives_lease(from, msg@) ==> now + LEASE <= u64::MAX,
        ensures
            final(self).wf(),
            final(self)@ == old(self)@.handle(now, from, msg@),
    {
        proof {
            self@.lemma_handle_wf(now, from, msg@);
        }
        if !self.valid_inbound(from, &msg) {
            return ;
        }
        match msg {
            Message::Request { lock, req } => self.on_request(now, lock, req),
            Message::Grant { lock, req, fence } => self.on_grant(from, lock, req, fence),
            Message::Inquire { lock, req } => self.on_inquire(from, lock, req),
            Message::Yield { lock, req } => self.on_yield(now, lock, req),
            Message::Confirm { lock, req, fence } => self.on_confirm(lock, fence),
            Message::Release { lock, req, fence } => self.on_release(now, lock, req, fence),
            Message::Renew { lock, req } => self.on_renew(now, lock, req),
            Message::Revoked { lock, req } => self.on_revoked(from, lock, req),
        }
    }

    /// Advance time. Drives lease maintenance: reclaims votes whose holders
    /// stopped renewing, forgets arbiter entries that hold nothing, emits
    /// renewals for votes this node still holds, and repeats requests that are
    /// still short of votes (receivers de-duplicate them). Call periodically.
    pub fn tick(&mut self, now: Instant)
        requires
            old(self).wf(),
            now + LEASE <= u64::MAX,
        ensures
            final(self).wf(),
            final(self)@ == old(self)@.tick(now),
    {
        let (mut revoked, mut grants) = reclaim(&mut self.arbiter, now);
        prune(&mut self.arbiter);
        let (mut renews, mut requests) = renew(&mut self.requester, &self.targets, now);
        let ghost parts = (revoked@, grants@, renews@, requests@);
        self.outbox.append(&mut revoked);
        self.outbox.append(&mut grants);
        self.outbox.append(&mut renews);
        self.outbox.append(&mut requests);
        proof {
            let n = old(self)@;
            assert(outgoing_views(self.outbox@) =~= n.outbox + (outgoing_views(parts.0)
                + outgoing_views(parts.1) + outgoing_views(parts.2) + outgoing_views(parts.3)));
            n.lemma_tick_wf(now);
            assert(self@ =~= n.tick(now));
        }
    }

    /// Take everything the node wants to send since the last drain.
    pub fn drain_outbox(&mut self) -> (out: Vec<Outgoing>)
        requires
            old(self).wf(),
        ensures
            final(self).wf(),
            outgoing_views(out@) == old(self)@.outbox,
            final(self)@ == (NodeView { outbox: Seq::empty(), ..old(self)@ }),
    {
        let mut out: Vec<Outgoing> = Vec::new();
        std::mem::swap(&mut out, &mut self.outbox);
        assert(self@ =~= NodeView { outbox: Seq::empty(), ..old(self)@ });
        out
    }

    /// Take the locks newly acquired since the last call, each paired with its
    /// fence token. Present the token to the protected resource.
    pub fn take_acquired(&mut self) -> (acquired: Vec<(LockId, Fence)>)
        requires
            old(self).wf(),
        ensures
            final(self).wf(),
            acquired_views(acquired@) == old(self)@.acquired,
            final(self)@ == (NodeView { acquired: Seq::empty(), ..old(self)@ }),
    {
        let mut acquired: Vec<(LockId, Fence)> = Vec::new();
        std::mem::swap(&mut acquired, &mut self.acquired);
        assert(self@ =~= NodeView { acquired: Seq::empty(), ..old(self)@ });
        acquired
    }

    /// Take the locks this node has lost since the last call: its leases lapsed
    /// and it no longer holds enough votes. The application must stop using the
    /// resource for these locks.
    pub fn take_lost(&mut self) -> (lost: Vec<LockId>)
        requires
            old(self).wf(),
        ensures
            final(self).wf(),
            lock_views(lost@) == old(self)@.lost,
            final(self)@ == (NodeView { lost: Seq::empty(), ..old(self)@ }),
    {
        let mut lost: Vec<LockId> = Vec::new();
        std::mem::swap(&mut lost, &mut self.lost);
        assert(self@ =~= NodeView { lost: Seq::empty(), ..old(self)@ });
        lost
    }

    // ---- internals ----------------------------------------------------------
    /// Raise the Lamport clock to a timestamp seen on the wire.
    fn observe(&mut self, ts: Lamport)
        requires
            old(self).wf(),
        ensures
            final(self).inv(),
            final(self)@ == (NodeView {
                lamport: if ts > old(self)@.lamport {
                    ts
                } else {
                    old(self)@.lamport
                },
                ..old(self)@
            }),
    {
        if ts > self.lamport {
            self.lamport = ts;
        }
    }

    /// Whether an inbound message comes from a node that may send it.
    fn valid_inbound(&self, from: NodeId, msg: &Message) -> (b: bool)
        ensures
            b == self@.accepts(from, msg@),
    {
        let req = msg.req();
        if !contains_node(&self.members, from) || !contains_node(&self.members, req.node) {
            return false;
        }
        match msg.kind() {
            MessageKind::Grant | MessageKind::Inquire | MessageKind::Revoked => req.node
                == self.id,
            _ => from == req.node,
        }
    }

    // ---- arbiter role -------------------------------------------------------
    /// The position of the arbiter entry for `lock`, which is created if need
    /// be.
    fn arbiter_entry(&mut self, lock: &str) -> (i: usize)
        requires
            old(self).inv(),
            old(self)@.arbiter.wf(),
        ensures
            final(self).inv(),
            i < final(self)@.arbiter.keys.len(),
            final(self)@.arbiter.keys[i as int] == lock@,
            final(self)@.arbiter.wf(),
            final(self)@ == old(self)@.with_arbiter(
                lock@,
                old(self)@.arbiter_of(lock@),
                Seq::empty(),
            ),
    {
        proof {
            old(self)@.arbiter.lemma_put_wf(lock@, old(self)@.arbiter_of(lock@));
        }
        match self.arbiter.find(lock) {
            Some(i) => {
                proof {
                    self@.arbiter.lemma_put_same(lock@);
                    assert(self@ =~= old(self)@.with_arbiter(
                        lock@,
                        old(self)@.arbiter_of(lock@),
                        Seq::empty(),
                    ));
                }
                i
            },
            None => {
                let i = self.arbiter.len();
                self.arbiter.push(lock.to_owned(), ArbiterState::fresh());
                proof {
                    assert(self@ =~= old(self)@.with_arbiter(
                        lock@,
                        old(self)@.arbiter_of(lock@),
                        Seq::empty(),
                    ));
                }
                i
            },
        }
    }

    fn on_request(&mut self, now: Instant, lock: LockId, req: RequestId)
        requires
            old(self).wf(),
            old(self)@.arbiter_of(lock@).voted_for is None ==> now + LEASE <= u64::MAX,
        ensures
            final(self).inv(),
            final(self)@ == old(self)@.on_request(now, lock@, req),
    {
        let ghost a0 = self@.arbiter_of(lock@);
        self.observe(req.ts);
        let i = self.arbiter_entry(lock.as_str());
        let ghost t = self@.arbiter;
        let a = self.arbiter.value_mut(i);
        let current = a.voted_for;
        let fence = a.fence_max;
        let mut inquire = false;
        match current {
            None => {
                a.voted_for = Some(req);
                a.lease = now + LEASE;
            },
            Some(current) => {
                if current != req {
                    queue_insert(&mut a.queue, req);
                    if req.before(current) && !a.inquired {
                        a.inquired = true;
                        inquire = true;
                    }
                }
            },
        }
        match current {
            None => push_out(
                &mut self.outbox,
                req.node,
                MessageKind::Grant,
                lock.as_str(),
                req,
                fence,
            ),
            Some(current) => {
                if inquire {
                    push_out(
                        &mut self.outbox,
                        current.node,
                        MessageKind::Inquire,
                        lock.as_str(),
                        current,
                        0,
                    );
                }
            },
        }
        proof {
            old(self)@.arbiter.lemma_put_put(lock@, a0, arbiter_request(a0, req, now));
            assert(self@ =~= old(self)@.on_request(now, lock@, req));
        }
    }

    fn on_yield(&mut self, now: Instant, lock: LockId, req: RequestId)
        requires
            old(self).wf(),
            old(self)@.arbiter_of(lock@).voted_for == Some(req) ==> now + LEASE <= u64::MAX,
        ensures
            final(self).inv(),
            final(self)@ == old(self)@.on_yield(now, lock@, req),
    {
        if let Some(i) = self.arbiter.find(lock.as_str()) {
            if self.arbiter.value(i).voted_for != Some(req) {
                return ;
            }
            let a = self.arbiter.value_mut(i);
            queue_insert(&mut a.queue, req);
            a.inquired = false;
            let next = a.grant_next(now);
            let fence = a.fence_max;
            if let Some(next) = next {
                push_out(
                    &mut self.outbox,
                    next.node,
                    MessageKind::Grant,
                    lock.as_str(),
                    next,
                    fence,
                );
            }
        }
        assert(self@ =~= old(self)@.on_yield(now, lock@, req));
    }

    fn on_confirm(&mut self, lock: LockId, fence: Fence)
        requires
            old(self).wf(),
        ensures
            final(self).inv(),
            final(self)@ == old(self)@.on_confirm(lock@, fence),
    {
        let ghost a0 = self@.arbiter_of(lock@);
        let i = self.arbiter_entry(lock.as_str());
        self.arbiter.value_mut(i).record(fence);
        proof {
            old(self)@.arbiter.lemma_put_put(
                lock@,
                a0,
                ArbiterView { fence_max: max_fence(a0.fence_max, fence), ..a0 },
            );
            assert(self@ =~= old(self)@.on_confirm(lock@, fence));
        }
    }

    fn on_release(&mut self, now: Instant, lock: LockId, req: RequestId, fence: Fence)
        requires
            old(self).wf(),
            old(self)@.arbiter_of(lock@).voted_for == Some(req) && !(old(self)@.arbiter_of(
                lock@,
            ).queue.remove(req) =~= Set::empty()) ==> now + LEASE <= u64::MAX,
        ensures
            final(self).inv(),
            final(self)@ == old(self)@.on_release(now, lock@, req, fence),
    {
        if let Some(i) = self.arbiter.find(lock.as_str()) {
            let a = self.arbiter.value_mut(i);
            // The departing holder's token is recorded before the vote moves on,
            // and the request is evicted wherever it sits: it can linger in the
            // queue of an arbiter whose vote it yielded earlier.
            a.record(fence);
            queue_remove(&mut a.queue, req);
            if a.voted_for == Some(req) {
                let next = a.grant_next(now);
                let known = a.fence_max;
                if let Some(next) = next {
                    push_out(
                        &mut self.outbox,
                        next.node,
                        MessageKind::Grant,
                        lock.as_str(),
                        next,
                        known,
                    );
                }
            }
        }
        assert(self@ =~= old(self)@.on_release(now, lock@, req, fence));
    }

    fn on_renew(&mut self, now: Instant, lock: LockId, req: RequestId)
        requires
            old(self).wf(),
            old(self)@.arbiter_of(lock@).voted_for == Some(req) ==> now + LEASE <= u64::MAX,
        ensures
            final(self).inv(),
            final(self)@ == old(self)@.on_renew(now, lock@, req),
    {
        let mut revoke = true;
        if let Some(i) = self.arbiter.find(lock.as_str()) {
            if self.arbiter.value(i).voted_for == Some(req) {
                self.arbiter.value_mut(i).lease = now + LEASE;
                revoke = false;
            }
        }
        if revoke {
            push_out(
                &mut self.outbox,
                req.node,
                MessageKind::Revoked,
                lock.as_str(),
                req,
                0,
            );
        }
        assert(self@ =~= old(self)@.on_renew(now, lock@, req));
    }

    // ---- requester role -----------------------------------------------------
    fn on_grant(&mut self, from: NodeId, lock: LockId, req: RequestId, fence: Fence)
        requires
            old(self).wf(),
        ensures
            final(self).inv(),
            final(self)@ == old(self)@.on_grant(from, lock@, req, fence),
    {
        if !contains_node(&self.targets, from) {
            return ;
        }
        let i = match self.requester.find(lock.as_str()) {
            Some(i) => i,
            None => {
                return ;
            },
        };
        if self.requester.value(i).req != req {
            return ;
        }
        let threshold = self.threshold;
        let r = self.requester.value_mut(i);
        let known = contains_node(&r.votes, from);
        if !known {
            r.votes.push(from);
        }
        if r.locked {
            // A late grant: count the voter, so that its vote is released later,
            // and record the token at it too.
            let token = r.best_fence;
            push_out(
                &mut self.outbox,
                from,
                MessageKind::Confirm,
                lock.as_str(),
                req,
                token,
            );
        } else {
            if fence > r.best_fence {
                r.best_fence = fence;
            }
            if r.votes.len() >= threshold {
                r.locked = true;
                let token = r.best_fence.saturating_add(1);
                r.best_fence = token;
                let confirm = r.votes.clone();
                assert(confirm@ =~= r.votes@);
                push_all(
                    &mut self.outbox,
                    &confirm,
                    MessageKind::Confirm,
                    lock.as_str(),
                    req,
                    token,
                );
                self.acquired.push((lock, token));
            }
        }
        assert(self@ =~= old(self)@.on_grant(from, lock@, req, fence));
    }

    fn on_inquire(&mut self, from: NodeId, lock: LockId, req: RequestId)
        requires
            old(self).wf(),
        ensures
            final(self).inv(),
            final(self)@ == old(self)@.on_inquire(from, lock@, req),
    {
        if let Some(i) = self.requester.find(lock.as_str()) {
            if self.requester.value(i).req == req && !self.requester.value(i).locked {
                remove_node(&mut self.requester.value_mut(i).votes, from);
                push_out(
                    &mut self.outbox,
                    from,
                    MessageKind::Yield,
                    lock.as_str(),
                    req,
                    0,
                );
            }
        }
        assert(self@ =~= old(self)@.on_inquire(from, lock@, req));
    }

    fn on_revoked(&mut self, from: NodeId, lock: LockId, req: RequestId)
        requires
            old(self).wf(),
        ensures
            final(self).inv(),
            final(self)@ == old(self)@.on_revoked(from, lock@, req),
    {
        let i = match self.requester.find(lock.as_str()) {
            Some(i) => i,
            None => {
                return ;
            },
        };
        if self.requester.value(i).req != req {
            return ;
        }
        let threshold = self.threshold;
        let r = self.requester.value_mut(i);
        remove_node(&mut r.votes, from);
        if r.locked && r.votes.len() < threshold {
            let fence = r.best_fence;
            let _ = self.requester.remove(lock.as_str());
            push_all(
                &mut self.outbox,
                &self.targets,
                MessageKind::Release,
                lock.as_str(),
                req,
                fence,
            );
            self.lost.push(lock);
        }
        assert(self@ =~= old(self)@.on_revoked(from, lock@, req));
    }
}

} // verus!
