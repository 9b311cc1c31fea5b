//! A cluster of nodes joined by links that deliver in order.
//!
//! The model for what the protocol guarantees: every node follows
//! [`NodeView`], every ordered pair of nodes has a link, and an adversary picks
//! what happens next, including the loss of any message in flight.
use vstd::prelude::*;

use crate::lock_map::Table;
use crate::model::{
    arbiter_grant_next, arbiter_released, arbiter_yielded, concat_over, grant_next_messages,
    lemma_smallest, lemma_vote_added, rebroadcast_fn, regrant_fn, renew_fn, revoke_fn, ArbiterView,
    NodeView, RequesterView,
};
use crate::quorum::{lemma_grid_members, QuorumPolicy};
use crate::types::{Instant, MessageKind, MessageView, NodeId, OutgoingView, RequestId};

verus! {

/// Something that happens in a cluster.
pub enum Event {
    /// A node is asked to acquire a lock.
    Request { node: NodeId, now: Instant, lock: Seq<char> },
    /// A node gives up a lock.
    Release { node: NodeId, lock: Seq<char> },
    /// The oldest message on a link arrives.
    Deliver { from: NodeId, to: NodeId, now: Instant },
    /// A message on a link is lost.
    Lose { from: NodeId, to: NodeId, index: int },
    /// A node's clock moves on.
    Tick { node: NodeId, now: Instant },
}

/// The nodes of a cluster and what is in flight between them.
#[verifier::ext_equal]
pub struct ClusterView {
    pub policy: QuorumPolicy,
    pub members: Seq<NodeId>,
    pub nodes: Map<NodeId, NodeView>,
    pub links: Map<(NodeId, NodeId), Seq<MessageView>>,
}

/// The messages addressed to `to`, in order.
pub open spec fn sent_to(out: Seq<OutgoingView>, to: NodeId) -> Seq<MessageView>
    decreases out.len(),
{
    if out.len() == 0 {
        Seq::empty()
    } else {
        let rest = sent_to(out.drop_last(), to);
        if out.last().to == to {
            rest.push(out.last().msg)
        } else {
            rest
        }
    }
}

impl ClusterView {
    /// A cluster in which nothing has happened yet.
    pub open spec fn start(policy: QuorumPolicy, members: Seq<NodeId>) -> ClusterView {
        ClusterView {
            policy,
            members,
            nodes: Map::new(
                |p: NodeId| members.contains(p),
                |p: NodeId| NodeView::fresh(p, policy, members),
            ),
            links: Map::new(|k: (NodeId, NodeId)| true, |k: (NodeId, NodeId)| Seq::empty()),
        }
    }

    /// What is in flight from `from` to `to`, oldest first.
    pub open spec fn link(self, from: NodeId, to: NodeId) -> Seq<MessageView> {
        self.links[(from, to)]
    }

    /// What node `x` knows of `lock` as an arbiter.
    pub open spec fn arbiter(self, x: NodeId, lock: Seq<char>) -> ArbiterView {
        self.nodes[x].arbiter_of(lock)
    }

    /// The request of node `p` for `lock`, if it has one.
    pub open spec fn requester(self, p: NodeId, lock: Seq<char>) -> Option<RequesterView> {
        self.nodes[p].requester.get(lock)
    }

    /// Whether node `p` holds `lock`.
    pub open spec fn holds(self, p: NodeId, lock: Seq<char>) -> bool {
        self.members.contains(p) && self.nodes[p].holds(lock)
    }

    /// The cluster with the link from `from` to `to` replaced.
    pub open spec fn with_link(self, from: NodeId, to: NodeId, link: Seq<MessageView>) -> ClusterView {
        ClusterView { links: self.links.insert((from, to), link), ..self }
    }

    /// Node `p` has become `n`: what it wants to send is under way, what it
    /// wants to report is reported.
    pub open spec fn flushed(self, p: NodeId, n: NodeView) -> ClusterView {
        ClusterView {
            nodes: self.nodes.insert(p, n.settled()),
            links: Map::new(
                |k: (NodeId, NodeId)| true,
                |k: (NodeId, NodeId)|
                    if k.0 == p {
                        self.links[k] + sent_to(n.outbox, k.1)
                    } else {
                        self.links[k]
                    },
            ),
            ..self
        }
    }

    /// What `event` does to the cluster; an event that cannot happen changes
    /// nothing.
    pub open spec fn next(self, event: Event) -> ClusterView {
        match event {
            Event::Request { node, now, lock } => if self.members.contains(node)
                && self.nodes[node].lamport < u64::MAX {
                self.flushed(node, self.nodes[node].request(now, lock))
            } else {
                self
            },
            Event::Release { node, lock } => if self.members.contains(node) {
                self.flushed(node, self.nodes[node].release(lock))
            } else {
                self
            },
            Event::Deliver { from, to, now } => if self.members.contains(to) && self.link(
                from,
                to,
            ).len() > 0 {
                let link = self.link(from, to);
                self.with_link(from, to, link.remove(0)).flushed(
                    to,
                    self.nodes[to].handle(now, from, link[0]),
                )
            } else {
                self
            },
            Event::Lose { from, to, index } => if 0 <= index < self.link(from, to).len() {
                self.with_link(from, to, self.link(from, to).remove(index))
            } else {
                self
            },
            Event::Tick { node, now } => if self.members.contains(node) {
                self.flushed(node, self.nodes[node].tick(now))
            } else {
                self
            },
        }
    }

    /// `event` does not find a vote whose lease has lapsed.
    pub open spec fn leases_hold(self, event: Event) -> bool {
        match event {
            Event::Tick { node, now } => forall|l: Seq<char>| #[trigger]
                self.nodes[node].arbiter.map.contains_key(l)
                    ==> !self.nodes[node].arbiter.map[l].lapsed(now),
            _ => true,
        }
    }
}

impl ClusterView {
    /// `event` finds no lapsed lease on a vote for one of the `live` nodes.
    pub open spec fn spares(self, event: Event, live: Set<NodeId>) -> bool {
        match event {
            Event::Tick { node, now } => forall|l: Seq<char>| #[trigger]
                self.nodes[node].arbiter.map.contains_key(l)
                    && self.nodes[node].arbiter.map[l].lapsed(now) ==> !live.contains(
                    self.nodes[node].arbiter.map[l].voted_for->0.node,
                ),
            _ => true,
        }
    }
}

/// The cluster after `events`, one after the other.
pub open spec fn after(policy: QuorumPolicy, members: Seq<NodeId>, events: Seq<Event>) -> ClusterView
    decreases events.len(),
{
    if events.len() == 0 {
        ClusterView::start(policy, members)
    } else {
        after(policy, members, events.drop_last()).next(events.last())
    }
}

/// No lease lapses during `events`.
pub open spec fn leases_hold(policy: QuorumPolicy, members: Seq<NodeId>, events: Seq<Event>) -> bool
    decreases events.len(),
{
    events.len() > 0 ==> {
        &&& leases_hold(policy, members, events.drop_last())
        &&& after(policy, members, events.drop_last()).leases_hold(events.last())
    }
}

/// No lease on a vote for one of the `live` nodes lapses during `events`.
pub open spec fn spares(
    policy: QuorumPolicy,
    members: Seq<NodeId>,
    events: Seq<Event>,
    live: Set<NodeId>,
) -> bool
    decreases events.len(),
{
    events.len() > 0 ==> {
        &&& spares(policy, members, events.drop_last(), live)
        &&& after(policy, members, events.drop_last()).spares(events.last(), live)
    }
}

/// If no lease lapses, none on a vote for one of the `live` nodes does.
pub proof fn lemma_leases_spare(
    policy: QuorumPolicy,
    members: Seq<NodeId>,
    events: Seq<Event>,
    live: Set<NodeId>,
)
    requires
        leases_hold(policy, members, events),
    ensures
        spares(policy, members, events, live),
    decreases events.len(),
{
    if events.len() > 0 {
        lemma_leases_spare(policy, members, events.drop_last(), live);
    }
}

/// No message between two of the `live` nodes is lost during `events`.
pub open spec fn lossless_among(events: Seq<Event>, live: Set<NodeId>) -> bool {
    forall|i: int|
        0 <= i < events.len() ==> (#[trigger] events[i] matches Event::Lose { from, to, .. }
            ==> !(live.contains(from) && live.contains(to)))
}

/// No message is lost during `events`.
pub open spec fn lossless(events: Seq<Event>) -> bool {
    forall|i: int| 0 <= i < events.len() ==> !(#[trigger] events[i] is Lose)
}

// ---- counting messages ----------------------------------------------------------
/// `m` is a message of the given kind about request `r` for `lock`.
pub open spec fn is_about(m: MessageView, kind: MessageKind, lock: Seq<char>, r: RequestId) -> bool {
    m.kind == kind && m.lock == lock && m.req == r
}

/// How many messages of the given kind about request `r` for `lock` there are.
pub open spec fn count(s: Seq<MessageView>, kind: MessageKind, lock: Seq<char>, r: RequestId) -> nat
    decreases s.len(),
{
    if s.len() == 0 {
        0
    } else {
        count(s.drop_last(), kind, lock, r) + if is_about(s.last(), kind, lock, r) {
            1nat
        } else {
            0nat
        }
    }
}

/// Counting distributes over concatenation.
pub proof fn lemma_count_append(
    a: Seq<MessageView>,
    b: Seq<MessageView>,
    kind: MessageKind,
    lock: Seq<char>,
    r: RequestId,
)
    ensures
        count(a + b, kind, lock, r) == count(a, kind, lock, r) + count(b, kind, lock, r),
    decreases b.len(),
{
    if b.len() == 0 {
        assert(a + b =~= a);
    } else {
        assert((a + b).drop_last() =~= a + b.drop_last());
        lemma_count_append(a, b.drop_last(), kind, lock, r);
    }
}

/// Taking one message away takes at most one from the count.
pub proof fn lemma_count_remove(
    s: Seq<MessageView>,
    i: int,
    kind: MessageKind,
    lock: Seq<char>,
    r: RequestId,
)
    requires
        0 <= i < s.len(),
    ensures
        count(s, kind, lock, r) == count(s.remove(i), kind, lock, r) + if is_about(
            s[i],
            kind,
            lock,
            r,
        ) {
            1nat
        } else {
            0nat
        },
    decreases s.len(),
{
    if i == s.len() - 1 {
        assert(s.remove(i) =~= s.drop_last());
    } else {
        assert(s.remove(i).drop_last() =~= s.drop_last().remove(i));
        lemma_count_remove(s.drop_last(), i, kind, lock, r);
    }
}

/// Nothing is counted exactly if nothing matches.
pub proof fn lemma_count_zero(
    s: Seq<MessageView>,
    kind: MessageKind,
    lock: Seq<char>,
    r: RequestId,
)
    ensures
        count(s, kind, lock, r) == 0 <==> forall|i: int|
            0 <= i < s.len() ==> !is_about(#[trigger] s[i], kind, lock, r),
    decreases s.len(),
{
    if s.len() > 0 {
        lemma_count_zero(s.drop_last(), kind, lock, r);
        assert forall|i: int| 0 <= i < s.len() - 1 implies s.drop_last()[i] == #[trigger] s[i] by {}
        if forall|i: int| 0 <= i < s.len() ==> !is_about(#[trigger] s[i], kind, lock, r) {
            assert(!is_about(s[s.len() - 1], kind, lock, r));
            assert forall|i: int| 0 <= i < s.drop_last().len() implies !is_about(
                #[trigger] s.drop_last()[i],
                kind,
                lock,
                r,
            ) by {
                assert(!is_about(s[i], kind, lock, r));
            }
        }
        if count(s, kind, lock, r) == 0 {
            assert forall|i: int| 0 <= i < s.len() implies !is_about(#[trigger] s[i], kind, lock, r) by {
                if i < s.len() - 1 {
                    assert(!is_about(s.drop_last()[i], kind, lock, r));
                }
            }
        }
    }
}

/// A message that matches is counted.
pub proof fn lemma_count_positive(
    s: Seq<MessageView>,
    i: int,
    kind: MessageKind,
    lock: Seq<char>,
    r: RequestId,
)
    requires
        0 <= i < s.len(),
        is_about(s[i], kind, lock, r),
    ensures
        count(s, kind, lock, r) > 0,
{
    lemma_count_zero(s, kind, lock, r);
}

// ---- what a node sends ------------------------------------------------------------
/// Every message sent to somebody is one of the messages sent.
pub proof fn lemma_sent_to(out: Seq<OutgoingView>, to: NodeId, i: int) -> (j: int)
    requires
        0 <= i < sent_to(out, to).len(),
    ensures
        0 <= j < out.len(),
        out[j].to == to,
        out[j].msg == sent_to(out, to)[i],
    decreases out.len(),
{
    let init = out.drop_last();
    if i < sent_to(init, to).len() {
        let j = lemma_sent_to(init, to, i);
        assert(out[j] == init[j]);
        j
    } else {
        out.len() - 1
    }
}

/// Every message addressed to somebody is sent to them.
pub proof fn lemma_sent_to_complete(out: Seq<OutgoingView>, j: int)
    requires
        0 <= j < out.len(),
    ensures
        sent_to(out, out[j].to).contains(out[j].msg),
    decreases out.len(),
{
    let to = out[j].to;
    let s = sent_to(out, to);
    let init = out.drop_last();
    if j < out.len() - 1 {
        lemma_sent_to_complete(init, j);
        let t = sent_to(init, to);
        let i = t.index_of(out[j].msg);
        assert(s[i] == t[i]);
    } else {
        assert(s[s.len() - 1] == out[j].msg);
    }
}

/// One message goes to its addressee and to nobody else.
pub proof fn lemma_sent_one(o: OutgoingView, to: NodeId)
    ensures
        sent_to(seq![o], to) == if o.to == to {
            seq![o.msg]
        } else {
            Seq::empty()
        },
{
    let out = seq![o];
    assert(out.drop_last() =~= Seq::empty());
    assert(sent_to(out.drop_last(), to) =~= Seq::empty());
    assert(out.last() == o);
    if o.to == to {
        assert(sent_to(out, to) =~= seq![o.msg]);
    }
}

/// A list without matching messages sends none.
pub proof fn lemma_sent_none(
    out: Seq<OutgoingView>,
    to: NodeId,
    kind: MessageKind,
    lock: Seq<char>,
    r: RequestId,
)
    requires
        forall|j: int| 0 <= j < out.len() ==> !is_about((#[trigger] out[j]).msg, kind, lock, r),
    ensures
        count(sent_to(out, to), kind, lock, r) == 0,
        forall|i: int|
            0 <= i < sent_to(out, to).len() ==> !is_about(
                #[trigger] sent_to(out, to)[i],
                kind,
                lock,
                r,
            ),
{
    let s = sent_to(out, to);
    assert forall|i: int| 0 <= i < s.len() implies !is_about(#[trigger] s[i], kind, lock, r) by {
        let j = lemma_sent_to(out, to, i);
        assert(!is_about(out[j].msg, kind, lock, r));
    }
    lemma_count_zero(s, kind, lock, r);
}

/// What is sent of a concatenation is what is sent of its parts.
pub proof fn lemma_sent_append(a: Seq<OutgoingView>, b: Seq<OutgoingView>, to: NodeId)
    ensures
        sent_to(a + b, to) == sent_to(a, to) + sent_to(b, to),
    decreases b.len(),
{
    if b.len() == 0 {
        assert(a + b =~= a);
        assert(sent_to(a, to) + sent_to(b, to) =~= sent_to(a, to));
    } else {
        assert((a + b).drop_last() =~= a + b.drop_last());
        lemma_sent_append(a, b.drop_last(), to);
        assert(sent_to(a + b, to) =~= sent_to(a, to) + sent_to(b, to));
    }
}

/// If each key speaks of itself alone, counting in the concatenation is counting
/// in what the key gives.
pub proof fn lemma_concat_count(
    keys: Seq<Seq<char>>,
    f: spec_fn(Seq<char>) -> Seq<OutgoingView>,
    to: NodeId,
    kind: MessageKind,
    lock: Seq<char>,
    r: RequestId,
)
    requires
        keys.no_duplicates(),
        forall|k: Seq<char>, j: int|
            keys.contains(k) && 0 <= j < f(k).len() ==> (#[trigger] f(k)[j]).msg.lock == k,
    ensures
        count(sent_to(concat_over(keys, f), to), kind, lock, r) == if keys.contains(lock) {
            count(sent_to(f(lock), to), kind, lock, r)
        } else {
            0
        },
    decreases keys.len(),
{
    if keys.len() > 0 {
        let init = keys.drop_last();
        let last = keys.last();
        assert(keys[keys.len() - 1] == last);
        assert forall|k: Seq<char>| #[trigger] init.contains(k) implies keys.contains(k) && k
            != last by {
            assert(keys[init.index_of(k)] == k);
        }
        assert forall|k: Seq<char>| #[trigger] keys.contains(k) implies init.contains(k) || k
            == last by {
            let i = keys.index_of(k);
            if i < keys.len() - 1 {
                assert(init[i] == k);
            }
        }
        lemma_concat_count(init, f, to, kind, lock, r);
        lemma_sent_append(concat_over(init, f), f(last), to);
        lemma_count_append(
            sent_to(concat_over(init, f), to),
            sent_to(f(last), to),
            kind,
            lock,
            r,
        );
        assert(keys.contains(last));
        if last != lock {
            assert forall|j: int| 0 <= j < f(last).len() implies !is_about(
                (#[trigger] f(last)[j]).msg,
                kind,
                lock,
                r,
            ) by {}
            lemma_sent_none(f(last), to, kind, lock, r);
        }
    }
}

/// Every element of a concatenation comes from one of the keys.
pub proof fn lemma_concat_elements(
    keys: Seq<Seq<char>>,
    f: spec_fn(Seq<char>) -> Seq<OutgoingView>,
    i: int,
) -> (k: Seq<char>)
    requires
        0 <= i < concat_over(keys, f).len(),
    ensures
        keys.contains(k),
        f(k).contains(concat_over(keys, f)[i]),
    decreases keys.len(),
{
    let init = keys.drop_last();
    let head = concat_over(init, f);
    if i < head.len() {
        let k = lemma_concat_elements(init, f, i);
        assert(keys[init.index_of(k)] == k);
        k
    } else {
        let k = keys.last();
        assert(keys[keys.len() - 1] == k);
        assert(f(k)[i - head.len()] == concat_over(keys, f)[i]);
        k
    }
}

// ---- whose requests a node speaks of -------------------------------------------------
/// The requests an arbiter speaks of all satisfy `ok`.
pub open spec fn arbiter_ids(a: ArbiterView, ok: spec_fn(RequestId) -> bool) -> bool {
    &&& a.voted_for matches Some(r) ==> ok(r)
    &&& forall|r: RequestId| #[trigger] a.queue.contains(r) ==> ok(r)
}

/// The requests a node speaks of all satisfy `ok`.
pub open spec fn node_ids(n: NodeView, ok: spec_fn(RequestId) -> bool) -> bool {
    &&& forall|l: Seq<char>| #[trigger]
        n.arbiter.map.contains_key(l) ==> arbiter_ids(n.arbiter.map[l], ok)
    &&& forall|l: Seq<char>| #[trigger]
        n.requester.map.contains_key(l) ==> ok(n.requester.map[l].req)
}

/// The requests that messages are about all satisfy `ok`.
pub open spec fn out_ids(out: Seq<OutgoingView>, ok: spec_fn(RequestId) -> bool) -> bool {
    forall|j: int| 0 <= j < out.len() ==> ok((#[trigger] out[j]).msg.req)
}

/// Requesting and releasing speak of the node's own request alone.
proof fn lemma_intent_ids(n: NodeView, now: Instant, lock: Seq<char>, ok: spec_fn(RequestId) -> bool)
    requires
        node_ids(n, ok),
        n.outbox.len() == 0,
    ensures
        ok(n.next_request()) ==> node_ids(n.request(now, lock), ok) && out_ids(
            n.request(now, lock).outbox,
            ok,
        ),
        node_ids(n.release(lock), ok),
        out_ids(n.release(lock).outbox, ok),
{
}

/// An inbound message makes a node speak of no request but those that it or
/// the message spoke of.
proof fn lemma_handle_ids(
    n: NodeView,
    now: Instant,
    from: NodeId,
    msg: MessageView,
    ok: spec_fn(RequestId) -> bool,
)
    requires
        n.wf(),
        node_ids(n, ok),
        ok(msg.req),
        n.outbox.len() == 0,
    ensures
        node_ids(n.handle(now, from, msg), ok),
        out_ids(n.handle(now, from, msg).outbox, ok),
{
    let a = n.arbiter_of(msg.lock);
    assert(arbiter_ids(a, ok));
    let b = arbiter_yielded(a, msg.req);
    let d = arbiter_released(a, msg.req, msg.fence);
    lemma_grant_next_ids(msg.lock, b, now, ok);
    lemma_grant_next_ids(msg.lock, d, now, ok);
    assert(a.wf());
}

/// The next votee is one of those that waited.
proof fn lemma_grant_next_ids(
    lock: Seq<char>,
    a: ArbiterView,
    now: Instant,
    ok: spec_fn(RequestId) -> bool,
)
    requires
        arbiter_ids(a, ok),
        a.queue.finite(),
    ensures
        arbiter_ids(arbiter_grant_next(a, now), ok),
        out_ids(grant_next_messages(lock, a), ok),
{
    if !(a.queue =~= Set::empty()) {
        if a.queue.len() == 0 {
            assert(a.queue =~= Set::empty());
        }
        lemma_smallest(a.queue);
    }
}

/// The passing of time makes a node speak of no new request.
proof fn lemma_tick_ids(n: NodeView, now: Instant, ok: spec_fn(RequestId) -> bool)
    requires
        n.wf(),
        node_ids(n, ok),
        n.outbox.len() == 0,
    ensures
        node_ids(n.tick(now), ok),
        out_ids(n.tick(now).outbox, ok),
{
    let t = n.tick(now);
    assert forall|l: Seq<char>| #[trigger] t.arbiter.map.contains_key(l) implies arbiter_ids(
        t.arbiter.map[l],
        ok,
    ) by {
        assert(n.arbiter.map.contains_key(l));
        lemma_grant_next_ids(l, n.arbiter.map[l], now, ok);
    }
    assert forall|l: Seq<char>| #[trigger] t.requester.map.contains_key(l) implies ok(
        t.requester.map[l].req,
    ) by {
        assert(n.requester.map.contains_key(l));
    }
    assert forall|k: Seq<char>| n.arbiter.map.contains_key(k) implies out_ids(
        #[trigger] revoke_fn(n.arbiter, now)(k),
        ok,
    ) by {}
    assert forall|k: Seq<char>| n.arbiter.map.contains_key(k) implies out_ids(
        #[trigger] regrant_fn(n.arbiter, now)(k),
        ok,
    ) by {
        lemma_grant_next_ids(k, n.arbiter.map[k], now, ok);
    }
    assert forall|k: Seq<char>| n.requester.map.contains_key(k) implies out_ids(
        #[trigger] renew_fn(n.requester, now)(k),
        ok,
    ) by {}
    assert forall|k: Seq<char>| n.requester.map.contains_key(k) implies out_ids(
        #[trigger] rebroadcast_fn(n.requester, n.targets(), now)(k),
        ok,
    ) by {}
    lemma_concat_ids(n.arbiter, revoke_fn(n.arbiter, now), ok);
    lemma_concat_ids(n.arbiter, regrant_fn(n.arbiter, now), ok);
    lemma_concat_ids(n.requester, renew_fn(n.requester, now), ok);
    lemma_concat_ids(n.requester, rebroadcast_fn(n.requester, n.targets(), now), ok);
}

/// If what is sent for every name is about fitting requests, everything is.
proof fn lemma_concat_ids<V>(
    t: Table<V>,
    f: spec_fn(Seq<char>) -> Seq<OutgoingView>,
    ok: spec_fn(RequestId) -> bool,
)
    requires
        t.wf(),
        forall|k: Seq<char>| t.map.contains_key(k) ==> out_ids(#[trigger] f(k), ok),
    ensures
        out_ids(concat_over(t.keys, f), ok),
{
    let out = concat_over(t.keys, f);
    assert forall|j: int| 0 <= j < out.len() implies ok((#[trigger] out[j]).msg.req) by {
        let k = lemma_concat_elements(t.keys, f, j);
        assert(out_ids(f(k), ok));
        assert(f(k)[f(k).index_of(out[j])] == out[j]);
    }
}

// ---- what every event keeps -----------------------------------------------------------
impl ClusterView {
    /// `r` is a request that its node has made.
    pub open spec fn made(self, r: RequestId) -> bool {
        self.members.contains(r.node) && r.ts <= self.nodes[r.node].lamport
    }

    /// [`ClusterView::made`] as a predicate.
    pub open spec fn made_fn(self) -> spec_fn(RequestId) -> bool {
        |r: RequestId| self.made(r)
    }

    /// Node `p` is consistent, knows the cluster, has sent what it wanted to
    /// send, and speaks of requests that were made.
    pub open spec fn sane_node(self, p: NodeId) -> bool {
        let n = self.nodes[p];
        &&& n.wf()
        &&& n.id == p
        &&& n.policy == self.policy
        &&& n.members == self.members
        &&& n == n.settled()
        &&& node_ids(n, self.made_fn())
    }

    /// The messages on the link are between members and speak of requests that
    /// were made.
    pub open spec fn sane_link(self, from: NodeId, to: NodeId) -> bool {
        let link = self.link(from, to);
        &&& link.len() > 0 ==> self.members.contains(from) && self.members.contains(to)
        &&& forall|i: int| 0 <= i < link.len() ==> self.made((#[trigger] link[i]).req)
    }

    /// Every node and every link is in order.
    pub open spec fn sane(self) -> bool {
        &&& self.members.no_duplicates()
        &&& forall|k: (NodeId, NodeId)| #[trigger] self.links.contains_key(k)
        &&& forall|p: NodeId| #[trigger]
            self.nodes.contains_key(p) <==> self.members.contains(p)
        &&& forall|p: NodeId| #[trigger] self.members.contains(p) ==> self.sane_node(p)
        &&& forall|s: NodeId, t: NodeId| #[trigger] self.sane_link(s, t)
    }
}

/// A cluster in which nothing has happened is in order.
pub proof fn lemma_sane_start(policy: QuorumPolicy, members: Seq<NodeId>)
    requires
        members.no_duplicates(),
    ensures
        ClusterView::start(policy, members).sane(),
{
    let c = ClusterView::start(policy, members);
    assert forall|p: NodeId| #[trigger] members.contains(p) implies c.sane_node(p) by {
        NodeView::lemma_fresh_wf(p, policy, members);
    }
}

/// Replacing a link by part of it keeps the cluster in order.
pub proof fn lemma_sane_with_link(c: ClusterView, from: NodeId, to: NodeId, i: int)
    requires
        c.sane(),
        0 <= i < c.link(from, to).len(),
    ensures
        c.with_link(from, to, c.link(from, to).remove(i)).sane(),
{
    let d = c.with_link(from, to, c.link(from, to).remove(i));
    assert forall|p: NodeId| #[trigger] d.members.contains(p) implies d.sane_node(p) by {
        assert(c.sane_node(p));
        lemma_node_ids_weaken(c.nodes[p], c.made_fn(), d.made_fn());
    }
    assert forall|s: NodeId, t: NodeId| #[trigger] d.sane_link(s, t) by {
        assert(c.sane_link(s, t));
        let link = d.link(s, t);
        assert forall|j: int| 0 <= j < link.len() implies d.made((#[trigger] link[j]).req) by {
            let old_link = c.link(s, t);
            if s == from && t == to && j >= i {
                assert(link[j] == old_link[j + 1]);
            } else {
                assert(link[j] == old_link[j]);
            }
        }
    }
}

/// A weaker predicate holds of the same requests.
proof fn lemma_node_ids_weaken(
    n: NodeView,
    strong: spec_fn(RequestId) -> bool,
    weak: spec_fn(RequestId) -> bool,
)
    requires
        node_ids(n, strong),
        forall|r: RequestId| #[trigger] strong(r) ==> weak(r),
    ensures
        node_ids(n, weak),
{
    assert forall|l: Seq<char>| #[trigger] n.arbiter.map.contains_key(l) implies arbiter_ids(
        n.arbiter.map[l],
        weak,
    ) by {
        assert(arbiter_ids(n.arbiter.map[l], strong));
    }
}

/// Every message is addressed to a member.
pub open spec fn to_members(out: Seq<OutgoingView>, members: Seq<NodeId>) -> bool {
    forall|j: int| 0 <= j < out.len() ==> members.contains((#[trigger] out[j]).to)
}

/// Nodes send to members alone, when they request, release or answer.
proof fn lemma_step_to_members(c: ClusterView, p: NodeId, lock: Seq<char>, now: Instant)
    requires
        c.sane(),
        c.members.contains(p),
    ensures
        to_members(c.nodes[p].request(now, lock).outbox, c.members),
        to_members(c.nodes[p].release(lock).outbox, c.members),
        to_members(c.nodes[p].tick(now).outbox, c.members),
{
    let n = c.nodes[p];
    let t = n.targets();
    assert(c.sane_node(p));
    lemma_grid_members(p, c.members);
    assert forall|j: int| 0 <= j < t.len() implies c.members.contains(#[trigger] t[j]) by {
        assert(t.contains(t[j]));
    }
    let out = n.tick(now).outbox;
    let a = concat_over(n.arbiter.keys, revoke_fn(n.arbiter, now));
    let b = concat_over(n.arbiter.keys, regrant_fn(n.arbiter, now));
    let e = concat_over(n.requester.keys, renew_fn(n.requester, now));
    let f = concat_over(n.requester.keys, rebroadcast_fn(n.requester, n.targets(), now));
    assert(out =~= a + b + e + f);
    lemma_tick_ids(n, now, c.made_fn());
    assert forall|j: int| 0 <= j < out.len() implies c.members.contains((#[trigger] out[j]).to) by {
        assert(c.made_fn()(out[j].msg.req));
        if j < a.len() {
            let g = revoke_fn(n.arbiter, now);
            let k = lemma_concat_elements(n.arbiter.keys, g, j);
            assert(g(k)[g(k).index_of(out[j])] == out[j]);
        } else if j < a.len() + b.len() {
            let g = regrant_fn(n.arbiter, now);
            let k = lemma_concat_elements(n.arbiter.keys, g, j - a.len());
            assert(g(k)[g(k).index_of(out[j])] == out[j]);
        } else if j < a.len() + b.len() + e.len() {
            let g = renew_fn(n.requester, now);
            let k = lemma_concat_elements(n.requester.keys, g, j - a.len() - b.len());
            let i = g(k).index_of(out[j]);
            assert(g(k)[i] == out[j]);
            assert(n.requester.map.contains_key(k));
            assert(n.requester_wf(n.requester.map[k]));
            assert(n.requester.map[k].votes.contains(n.requester.map[k].votes[i]));
            assert(t.contains(out[j].to));
        } else {
            let g = rebroadcast_fn(n.requester, n.targets(), now);
            let k = lemma_concat_elements(n.requester.keys, g, j - a.len() - b.len() - e.len());
            let i = g(k).index_of(out[j]);
            assert(g(k)[i] == out[j]);
            assert(out[j].to == t[i]);
        }
    }
}

/// Nodes answer members alone.
proof fn lemma_handle_to_members(
    c: ClusterView,
    p: NodeId,
    now: Instant,
    from: NodeId,
    msg: MessageView,
)
    requires
        c.sane(),
        c.members.contains(p),
        c.made(msg.req),
    ensures
        to_members(c.nodes[p].handle(now, from, msg).outbox, c.members),
{
    let n = c.nodes[p];
    let t = n.targets();
    let h = n.handle(now, from, msg);
    assert(c.sane_node(p));
    lemma_grid_members(p, c.members);
    assert(c.made_fn()(msg.req));
    lemma_handle_ids(n, now, from, msg, c.made_fn());
    assert forall|j: int| 0 <= j < t.len() implies c.members.contains(#[trigger] t[j]) by {
        assert(t.contains(t[j]));
    }
    if n.accepts(from, msg) && msg.kind is Grant && n.request_of(msg.lock) == Some(msg.req)
        && t.contains(from) {
        let r = n.requester.map[msg.lock];
        let r2 = h.requester.map[msg.lock];
        lemma_vote_added(r.votes, from);
        assert forall|i: int| 0 <= i < r2.votes.len() implies c.members.contains(
            #[trigger] r2.votes[i],
        ) by {
            assert(r2.votes.contains(r2.votes[i]));
            assert(t.contains(r2.votes[i]));
        }
    }
    assert forall|j: int| 0 <= j < h.outbox.len() implies c.members.contains(
        (#[trigger] h.outbox[j]).to,
    ) by {
        assert(c.made_fn()(h.outbox[j].msg.req));
        match msg.kind {
            MessageKind::Request
            | MessageKind::Yield
            | MessageKind::Release
            | MessageKind::Renew => {
                assert(h.outbox[j].to == h.outbox[j].msg.req.node);
            },
            MessageKind::Revoked => {
                assert(h.outbox[j].to == t[j]);
            },
            MessageKind::Grant => {
                let r2 = h.requester.map[msg.lock];
                assert(h.outbox[j].to == from || h.outbox[j].to == r2.votes[j]);
            },
            _ => {},
        }
    }
}

/// A node's own step keeps the cluster in order.
pub proof fn lemma_sane_flushed(c: ClusterView, p: NodeId, n: NodeView)
    requires
        c.sane(),
        c.members.contains(p),
        n.wf(),
        n.id == p,
        n.policy == c.policy,
        n.members == c.members,
        n.lamport >= c.nodes[p].lamport,
        node_ids(n, c.flushed(p, n).made_fn()),
        out_ids(n.outbox, c.flushed(p, n).made_fn()),
        to_members(n.outbox, c.members),
    ensures
        c.flushed(p, n).sane(),
{
    let d = c.flushed(p, n);
    assert forall|r: RequestId| #[trigger] c.made(r) implies d.made(r) by {}
    assert forall|q: NodeId| #[trigger] d.members.contains(q) implies d.sane_node(q) by {
        assert(c.sane_node(q));
        if q != p {
            assert forall|r: RequestId| #[trigger] c.made_fn()(r) implies d.made_fn()(r) by {
                assert(c.made(r));
            }
            lemma_node_ids_weaken(c.nodes[q], c.made_fn(), d.made_fn());
        } else {
            let m = d.nodes[p];
            assert forall|l: Seq<char>| #[trigger] m.arbiter.map.contains_key(l) implies arbiter_ids(
                m.arbiter.map[l],
                d.made_fn(),
            ) by {
                assert(n.arbiter.map.contains_key(l));
            }
            assert(m.wf()) by {
                assert forall|l: Seq<char>| #[trigger]
                    m.requester.map.contains_key(l) implies m.requester_wf(m.requester.map[l]) by {
                    assert(n.requester_wf(n.requester.map[l]));
                }
            }
        }
    }
    assert forall|s: NodeId, t: NodeId| #[trigger] d.sane_link(s, t) by {
        assert(c.sane_link(s, t));
        let link = d.link(s, t);
        if link.len() > 0 && c.link(s, t).len() == 0 {
            let i = lemma_sent_to(n.outbox, t, 0);
        }
        assert forall|j: int| 0 <= j < link.len() implies d.made((#[trigger] link[j]).req) by {
            let old_link = c.link(s, t);
            if j < old_link.len() {
                assert(link[j] == old_link[j]);
                assert(c.made(old_link[j].req));
            } else {
                let i = lemma_sent_to(n.outbox, t, j - old_link.len());
                assert(d.made_fn()(n.outbox[i].msg.req));
            }
        }
    }
}

/// Every event keeps the cluster in order.
pub proof fn lemma_sane_next(c: ClusterView, e: Event)
    requires
        c.sane(),
    ensures
        c.next(e).sane(),
        c.next(e).members == c.members,
        c.next(e).policy == c.policy,
{
    match e {
        Event::Request { node, now, lock } => {
            if c.members.contains(node) && c.nodes[node].lamport < u64::MAX {
                assert(c.sane_node(node));
                let m = c.nodes[node];
                let n = m.request(now, lock);
                let d = c.flushed(node, n);
                m.lemma_request_wf(now, lock);
                assert(c.members.contains(node));
                assert forall|r: RequestId| #[trigger] c.made_fn()(r) implies d.made_fn()(r) by {
                    assert(c.made(r));
                }
                lemma_node_ids_weaken(m, c.made_fn(), d.made_fn());
                if !m.requester.map.contains_key(lock) {
                    assert(d.made(m.next_request()));
                    lemma_intent_ids(m, now, lock, d.made_fn());
                }
                lemma_step_to_members(c, node, lock, now);
                lemma_sane_flushed(c, node, n);
            }
        },
        Event::Release { node, lock } => {
            if c.members.contains(node) {
                assert(c.sane_node(node));
                let m = c.nodes[node];
                let n = m.release(lock);
                let d = c.flushed(node, n);
                m.lemma_release_wf(lock);
                assert forall|r: RequestId| #[trigger] c.made_fn()(r) implies d.made_fn()(r) by {
                    assert(c.made(r));
                }
                lemma_node_ids_weaken(m, c.made_fn(), d.made_fn());
                lemma_intent_ids(m, 0, lock, d.made_fn());
                lemma_step_to_members(c, node, lock, 0);
                lemma_sane_flushed(c, node, n);
            }
        },
        Event::Deliver { from, to, now } => {
            if c.members.contains(to) && c.link(from, to).len() > 0 {
                assert(c.sane_link(from, to));
                let msg = c.link(from, to)[0];
                assert(c.made(msg.req));
                let b = c.with_link(from, to, c.link(from, to).remove(0));
                lemma_sane_with_link(c, from, to, 0);
                assert(b.sane_node(to));
                let m = b.nodes[to];
                let n = m.handle(now, from, msg);
                let d = b.flushed(to, n);
                m.lemma_handle_wf(now, from, msg);
                assert forall|r: RequestId| #[trigger] b.made_fn()(r) implies d.made_fn()(r) by {
                    assert(b.made(r));
                }
                assert(b.made(msg.req));
                assert(b.made_fn()(msg.req));
                lemma_node_ids_weaken(m, b.made_fn(), d.made_fn());
                lemma_handle_ids(m, now, from, msg, d.made_fn());
                lemma_handle_to_members(b, to, now, from, msg);
                lemma_sane_flushed(b, to, n);
            }
        },
        Event::Lose { from, to, index } => {
            if 0 <= index < c.link(from, to).len() {
                lemma_sane_with_link(c, from, to, index);
            }
        },
        Event::Tick { node, now } => {
            if c.members.contains(node) {
                assert(c.sane_node(node));
                let m = c.nodes[node];
                let n = m.tick(now);
                let d = c.flushed(node, n);
                m.lemma_tick_wf(now);
                assert forall|r: RequestId| #[trigger] c.made_fn()(r) implies d.made_fn()(r) by {
                    assert(c.made(r));
                }
                lemma_node_ids_weaken(m, c.made_fn(), d.made_fn());
                lemma_tick_ids(m, now, d.made_fn());
                lemma_step_to_members(c, node, Seq::empty(), now);
                lemma_sane_flushed(c, node, n);
            }
        },
    }
}

/// Every cluster that events lead to is in order.
pub proof fn lemma_sane_after(policy: QuorumPolicy, members: Seq<NodeId>, events: Seq<Event>)
    requires
        members.no_duplicates(),
    ensures
        after(policy, members, events).sane(),
        after(policy, members, events).members == members,
        after(policy, members, events).policy == policy,
    decreases events.len(),
{
    if events.len() == 0 {
        lemma_sane_start(policy, members);
    } else {
        lemma_sane_after(policy, members, events.drop_last());
        lemma_sane_next(after(policy, members, events.drop_last()), events.last());
    }
}

} // verus!
