//! A deterministic in-memory network simulator for driving and testing the
//! protocol without sockets.
//!
//! The protocol assumes FIFO point-to-point channels: messages between an
//! ordered pair of nodes are delivered in send order, as a TCP connection does.
//! The simulator keeps an independent queue per directed link and, on each
//! step, delivers the head of a randomly chosen link. This preserves per-link
//! order while interleaving links and locks arbitrarily. The choice is driven by
//! a seedable xorshift generator, so every run is reproducible.
//!
//! Whatever a simulation does is a run of [`crate::cluster`]: a [`Sim`] carries
//! the events that led to it, so what is proved of clusters holds of it.
use std::collections::VecDeque;
use vstd::prelude::*;

use crate::cluster::{
    after, leases_hold, lemma_sane_after, lemma_sane_next, lossless_among, sent_to, spares,
    ClusterView, Event,
};
use crate::exclusion::law_survivors_exclude_each_other;
use crate::leases::{
    lemma_timely_deliver, lemma_timely_fewer, lemma_timely_later, lemma_timely_links,
    lemma_timely_release, lemma_timely_request, lemma_timely_rest, lemma_timely_skip,
    lemma_timely_tick, lemma_timely_tick_spares,
};
use crate::model::NodeView;
use crate::node::{acquired_views, Node};
use crate::progress::{can_reach_quorum, law_survivors_make_progress, lemma_waits_after};
use crate::quorum::QuorumPolicy;
use crate::rest::{law_deliveries_end, lemma_load_fewer, lemma_load_lose};
use crate::types::{
    outgoing_views, Fence, Instant, LockId, Message, MessageView, NodeId, Outgoing, OutgoingView,
    LEASE, RENEW_INTERVAL,
};

verus! {

/// The content of a [`Sim`].
#[verifier::ext_equal]
pub struct SimView {
    pub policy: QuorumPolicy,
    pub nodes: Seq<NodeView>,
    pub links: Map<(NodeId, NodeId), Seq<MessageView>>,
    /// Crashed nodes: they neither send, receive, nor tick.
    pub dead: Set<NodeId>,
    pub clock: Instant,
    pub rng: u64,
}

/// The members of a simulated cluster of `n` nodes: `0..n`.
pub open spec fn sim_members(n: nat) -> Seq<NodeId> {
    Seq::new(n, |i: int| i as NodeId)
}

/// The state of the generator after `x`.
pub open spec fn xorshift(x: u64) -> u64 {
    let a = x ^ (x << 13);
    let b = a ^ (a >> 7);
    b ^ (b << 17)
}

/// The seed in use when `seed` is asked for: the generator needs one that is
/// not zero.
pub open spec fn usable_seed(seed: u64) -> u64 {
    if seed == 0 {
        0x1234_5678_9ABC_DEF1
    } else {
        seed
    }
}

impl ClusterView {
    /// The cluster with everything under way to or from `dead` nodes lost.
    pub open spec fn isolated(self, dead: Set<NodeId>) -> ClusterView {
        ClusterView {
            links: Map::new(
                |k: (NodeId, NodeId)| true,
                |k: (NodeId, NodeId)|
                    if dead.contains(k.0) || dead.contains(k.1) {
                        Seq::empty()
                    } else {
                        self.links[k]
                    },
            ),
            ..self
        }
    }
}

impl SimView {
    /// A simulation in which nothing has happened yet.
    pub open spec fn start(n: nat, seed: u64, policy: QuorumPolicy) -> SimView {
        SimView {
            policy,
            nodes: Seq::new(n, |i: int| NodeView::fresh(i as NodeId, policy, sim_members(n))),
            links: Map::new(|k: (NodeId, NodeId)| true, |k: (NodeId, NodeId)| Seq::empty()),
            dead: Set::empty(),
            clock: 0,
            rng: usable_seed(seed),
        }
    }

    /// The simulated cluster.
    pub open spec fn cluster(self) -> ClusterView {
        ClusterView {
            policy: self.policy,
            members: sim_members(self.nodes.len()),
            nodes: Map::new(
                |p: NodeId| p < self.nodes.len(),
                |p: NodeId| self.nodes[p as int].settled(),
            ),
            links: self.links,
        }
    }

    /// Whether `node` exists and has not crashed.
    pub open spec fn alive(self, node: NodeId) -> bool {
        node < self.nodes.len() && !self.dead.contains(node)
    }

    /// The links after live node `p` has sent `out` to live nodes.
    pub open spec fn links_with(self, p: NodeId, out: Seq<OutgoingView>) -> Map<
        (NodeId, NodeId),
        Seq<MessageView>,
    > {
        Map::new(
            |k: (NodeId, NodeId)| true,
            |k: (NodeId, NodeId)|
                if k.0 == p && self.alive(p) && self.alive(k.1) {
                    self.links[k] + sent_to(out, k.1)
                } else {
                    self.links[k]
                },
        )
    }

    /// Node `p` has become `n`, and what it wants to send to live nodes is
    /// under way.
    pub open spec fn collect(self, p: NodeId, n: NodeView) -> SimView {
        SimView {
            nodes: self.nodes.update(p as int, NodeView { outbox: Seq::empty(), ..n }),
            links: self.links_with(p, n.outbox),
            ..self
        }
    }

    /// `node` stops; everything under way to or from it is lost.
    pub open spec fn crash(self, node: NodeId) -> SimView {
        if node < self.nodes.len() {
            SimView {
                dead: self.dead.insert(node),
                links: self.cluster().isolated(set![node]).links,
                ..self
            }
        } else {
            self
        }
    }

    /// `node` starts acquiring `lock`.
    pub open spec fn request(self, node: NodeId, lock: Seq<char>) -> SimView {
        if self.alive(node) {
            self.collect(node, self.nodes[node as int].request(self.clock, lock))
        } else {
            self
        }
    }

    /// `node` releases `lock`.
    pub open spec fn release(self, node: NodeId, lock: Seq<char>) -> SimView {
        if self.alive(node) {
            self.collect(node, self.nodes[node as int].release(lock))
        } else {
            self
        }
    }

    /// The links from `s` to the first `k` nodes that have something under way,
    /// in order.
    pub open spec fn active_row(self, s: NodeId, k: nat) -> Seq<(NodeId, NodeId)>
        decreases k,
    {
        if k == 0 {
            Seq::empty()
        } else {
            let rest = self.active_row(s, (k - 1) as nat);
            if self.links[(s, (k - 1) as NodeId)].len() > 0 {
                rest.push((s, (k - 1) as NodeId))
            } else {
                rest
            }
        }
    }

    /// The links from the first `k` nodes that have something under way, in
    /// order.
    pub open spec fn active_rows(self, k: nat) -> Seq<(NodeId, NodeId)>
        decreases k,
    {
        if k == 0 {
            Seq::empty()
        } else {
            self.active_rows((k - 1) as nat) + self.active_row(
                (k - 1) as NodeId,
                self.nodes.len(),
            )
        }
    }

    /// The links that have something under way, in order.
    pub open spec fn active(self) -> Seq<(NodeId, NodeId)> {
        self.active_rows(self.nodes.len())
    }

    /// Nothing is under way.
    pub open spec fn idle(self) -> bool {
        forall|k: (NodeId, NodeId)| (#[trigger] self.links[k]).len() == 0
    }

    /// The link that the generator picks among those that have something under
    /// way.
    pub open spec fn next_link(self) -> (NodeId, NodeId) {
        self.active()[(xorshift(self.rng) as int) % (self.active().len() as int)]
    }

    /// The delivery of the head of that link.
    pub open spec fn next_delivery(self) -> Event {
        Event::Deliver { from: self.next_link().0, to: self.next_link().1, now: self.clock }
    }

    /// One message is delivered: the head of the link that the generator picks
    /// among those that have something under way.
    pub open spec fn step(self) -> SimView {
        if self.active().len() == 0 {
            self
        } else {
            let rng = xorshift(self.rng);
            let key = self.next_link();
            let link = self.links[key];
            SimView { rng, links: self.links.insert(key, link.remove(0)), ..self }.collect(
                key.1,
                self.nodes[key.1 as int].handle(self.clock, key.0, link[0]),
            )
        }
    }

    /// `k` messages are delivered, or as many as there are.
    pub open spec fn steps(self, k: nat) -> SimView
        decreases k,
    {
        if k == 0 {
            self
        } else {
            self.step().steps((k - 1) as nat)
        }
    }

    /// Everything is delivered, answers too.
    pub open spec fn settle(self) -> SimView {
        self.steps(self.cluster().load())
    }

    /// The clocks of the first `k` nodes move on, one after the other.
    pub open spec fn tick_all(self, k: nat) -> SimView
        decreases k,
    {
        if k == 0 {
            self
        } else {
            let s = self.tick_all((k - 1) as nat);
            let id = (k - 1) as NodeId;
            if s.dead.contains(id) {
                s
            } else {
                s.collect(id, s.nodes[id as int].tick(s.clock))
            }
        }
    }

    /// Time moves on to `clock`; everything that this has sent is delivered.
    pub open spec fn elapse(self, clock: Instant) -> SimView {
        SimView { clock, ..self }.tick_all(self.nodes.len()).settle()
    }

    /// Time moves on to `target` in steps of at most [`RENEW_INTERVAL`].
    pub open spec fn advance_to(self, clock: Instant, target: Instant) -> SimView
        decreases target - clock,
    {
        if clock >= target {
            self
        } else {
            let next: Instant = if clock + RENEW_INTERVAL < target {
                (clock + RENEW_INTERVAL) as u64
            } else {
                target
            };
            self.elapse(next).advance_to(next, target)
        }
    }

    /// What the first `k` nodes have to report, in order.
    pub open spec fn reports(self, k: nat) -> Seq<(NodeId, Seq<char>, Fence)>
        decreases k,
    {
        if k == 0 {
            Seq::empty()
        } else {
            self.reports((k - 1) as nat) + self.nodes[k - 1].acquired.map_values(
                |p: (Seq<char>, Fence)| ((k - 1) as NodeId, p.0, p.1),
            )
        }
    }

    /// The simulation with what was acquired reported.
    pub open spec fn reported(self) -> SimView {
        SimView {
            nodes: self.nodes.map_values(
                |n: NodeView| NodeView { acquired: Seq::empty(), ..n },
            ),
            ..self
        }
    }
}

// ---- simulations are runs of clusters ---------------------------------------------------
/// Nothing is under way to or from dead nodes.
pub open spec fn dead_quiet(links: Map<(NodeId, NodeId), Seq<MessageView>>, dead: Set<NodeId>) -> bool {
    forall|k: (NodeId, NodeId)|
        dead.contains(k.0) || dead.contains(k.1) ==> (#[trigger] links[k]).len() == 0
}

/// `e` is the loss of a message to or from a `dead` node.
pub open spec fn strands(e: Event, dead: Set<NodeId>) -> bool {
    e matches Event::Lose { from, to, .. } && (dead.contains(from) || dead.contains(to))
}

/// `h2` is `h` followed by `e` and the loss of messages to and from `dead` nodes.
pub open spec fn continues(h: Seq<Event>, h2: Seq<Event>, e: Event, dead: Set<NodeId>) -> bool {
    &&& h.len() < h2.len()
    &&& h2.take(h.len() as int + 1) == h.push(e)
    &&& forall|i: int| h.len() < i < h2.len() ==> strands(#[trigger] h2[i], dead)
    &&& dead.is_empty() ==> h2 == h.push(e)
}

/// One more event.
proof fn lemma_after_push(policy: QuorumPolicy, members: Seq<NodeId>, h: Seq<Event>, e: Event)
    ensures
        after(policy, members, h.push(e)) == after(policy, members, h).next(e),
        leases_hold(policy, members, h.push(e)) <==> leases_hold(policy, members, h) && after(
            policy,
            members,
            h,
        ).leases_hold(e),
        forall|live: Set<NodeId>| #[trigger]
            spares(policy, members, h.push(e), live) <==> spares(policy, members, h, live)
                && after(policy, members, h).spares(e, live),
{
    assert(h.push(e).drop_last() =~= h);
}

/// Losing a message to or from a dead node changes nothing but that.
proof fn lemma_isolate_step(c: ClusterView, k: (NodeId, NodeId), dead: Set<NodeId>)
    requires
        c.sane(),
        dead.contains(k.0) || dead.contains(k.1),
        c.links[k].len() > 0,
    ensures
        c.next(Event::Lose { from: k.0, to: k.1, index: 0 }).isolated(dead) == c.isolated(dead),
        c.next(Event::Lose { from: k.0, to: k.1, index: 0 }).load() < c.load(),
{
    let d = c.next(Event::Lose { from: k.0, to: k.1, index: 0 });
    assert(c.link(k.0, k.1) == c.links[k]);
    lemma_load_lose(c, k.0, k.1);
    assert(d.isolated(dead).links =~= c.isolated(dead).links);
}

/// Something is under way to or from a dead node.
spec fn stranded(c: ClusterView, dead: Set<NodeId>, k: (NodeId, NodeId)) -> bool {
    (dead.contains(k.0) || dead.contains(k.1)) && c.links[k].len() > 0
}

/// `h2` is `h` followed by the loss of messages to and from `dead` nodes.
spec fn only_losses(h: Seq<Event>, h2: Seq<Event>, dead: Set<NodeId>) -> bool {
    &&& h.len() <= h2.len()
    &&& h2.take(h.len() as int) == h
    &&& forall|i: int| h.len() <= i < h2.len() ==> strands(#[trigger] h2[i], dead)
}

/// Losses after a loss are losses.
proof fn lemma_only_losses_push(h: Seq<Event>, e: Event, h2: Seq<Event>, dead: Set<NodeId>)
    requires
        strands(e, dead),
        only_losses(h.push(e), h2, dead),
    ensures
        only_losses(h, h2, dead),
{
    let g = h.push(e);
    assert(h2.take(h.len() as int) =~= h2.take(g.len() as int).take(h.len() as int));
    assert(g.take(h.len() as int) =~= h);
    assert forall|i: int| h.len() <= i < h2.len() implies strands(#[trigger] h2[i], dead) by {
        if i == h.len() {
            assert(h2[i] == h2.take(g.len() as int)[i]);
        }
    }
}

/// Everything to and from dead nodes can be lost, message by message.
proof fn lemma_isolate(
    policy: QuorumPolicy,
    members: Seq<NodeId>,
    h: Seq<Event>,
    dead: Set<NodeId>,
) -> (h2: Seq<Event>)
    requires
        members.no_duplicates(),
    ensures
        after(policy, members, h2) == after(policy, members, h).isolated(dead),
        only_losses(h, h2, dead),
        leases_hold(policy, members, h) ==> leases_hold(policy, members, h2),
        forall|live: Set<NodeId>|
            spares(policy, members, h, live) ==> #[trigger] spares(policy, members, h2, live),
        dead.is_empty() ==> h2 == h,
    decreases after(policy, members, h).load(),
{
    let c = after(policy, members, h);
    if exists|k: (NodeId, NodeId)| stranded(c, dead, k) {
        let k = choose|k: (NodeId, NodeId)| stranded(c, dead, k);
        let e = Event::Lose { from: k.0, to: k.1, index: 0 };
        assert(c.next(e).isolated(dead) == c.isolated(dead) && c.next(e).load() < c.load()) by {
            lemma_sane_after(policy, members, h);
            lemma_isolate_step(c, k, dead);
        }
        lemma_after_push(policy, members, h, e);
        let h2 = lemma_isolate(policy, members, h.push(e), dead);
        lemma_only_losses_push(h, e, h2, dead);
        h2
    } else {
        assert(c.isolated(dead) == c) by {
            lemma_sane_after(policy, members, h);
            lemma_isolate_none(c, dead);
        }
        assert(h.take(h.len() as int) =~= h);
        h
    }
}

/// With nothing under way to or from dead nodes, there is nothing to lose.
proof fn lemma_isolate_none(c: ClusterView, dead: Set<NodeId>)
    requires
        forall|k: (NodeId, NodeId)| #[trigger] c.links.contains_key(k),
        forall|k: (NodeId, NodeId)| !stranded(c, dead, k),
    ensures
        c.isolated(dead) == c,
{
    assert forall|k: (NodeId, NodeId)| #[trigger] c.isolated(dead).links[k] == c.links[k] by {
        assert(!stranded(c, dead, k));
        if dead.contains(k.0) || dead.contains(k.1) {
            assert(c.links[k] =~= Seq::empty());
        }
    }
    assert(c.isolated(dead).links =~= c.links);
}

/// What a node reports has no influence on what it does.
proof fn lemma_reports_do_not_matter(
    n: NodeView,
    now: Instant,
    lock: Seq<char>,
    from: NodeId,
    msg: MessageView,
)
    requires
        n.outbox.len() == 0,
    ensures
        n.request(now, lock).settled() == n.settled().request(now, lock).settled(),
        n.request(now, lock).outbox == n.settled().request(now, lock).outbox,
        n.release(lock).settled() == n.settled().release(lock).settled(),
        n.release(lock).outbox == n.settled().release(lock).outbox,
        n.handle(now, from, msg).settled() == n.settled().handle(now, from, msg).settled(),
        n.handle(now, from, msg).outbox == n.settled().handle(now, from, msg).outbox,
        n.tick(now).settled() == n.settled().tick(now).settled(),
        n.tick(now).outbox == n.settled().tick(now).outbox,
{
    assert(n.outbox =~= Seq::empty());
    let m = n.settled();
    assert(n.targets() == m.targets());
}

/// A step of a live node is an event of the cluster, followed by the loss of
/// what goes to dead nodes.
proof fn lemma_collect(
    s: SimView,
    h: Seq<Event>,
    p: NodeId,
    n: NodeView,
    m: NodeView,
    e: Event,
) -> (h2: Seq<Event>)
    requires
        s.alive(p),
        s.nodes.len() <= u32::MAX,
        dead_quiet(s.links, s.dead),
        n.settled() == m.settled(),
        n.outbox == m.outbox,
        after(s.policy, sim_members(s.nodes.len()), h).next(e) == s.cluster().flushed(p, m),
    ensures
        after(s.policy, sim_members(s.nodes.len()), h2) == s.collect(p, n).cluster(),
        s.collect(p, n).cluster() == s.cluster().flushed(p, m).isolated(s.dead),
        dead_quiet(s.collect(p, n).links, s.dead),
        continues(h, h2, e, s.dead),
        forall|live: Set<NodeId>|
            spares(s.policy, sim_members(s.nodes.len()), h, live) && after(
                s.policy,
                sim_members(s.nodes.len()),
                h,
            ).spares(e, live) ==> #[trigger] spares(
                s.policy,
                sim_members(s.nodes.len()),
                h2,
                live,
            ),
        leases_hold(s.policy, sim_members(s.nodes.len()), h) && after(
            s.policy,
            sim_members(s.nodes.len()),
            h,
        ).leases_hold(e) ==> leases_hold(s.policy, sim_members(s.nodes.len()), h2),
{
    let members = sim_members(s.nodes.len());
    lemma_members(s.nodes.len());
    lemma_after_push(s.policy, members, h, e);
    let h2 = lemma_isolate(s.policy, members, h.push(e), s.dead);
    let d = s.cluster().flushed(p, m);
    assert(s.collect(p, n).cluster() == d.isolated(s.dead)) by {
        assert forall|k: (NodeId, NodeId)| k.1 >= s.nodes.len() implies (
        #[trigger] d.links[k]).len() == 0 by {
            lemma_sane_after(s.policy, members, h.push(e));
            assert(d.sane_link(k.0, k.1));
            assert(d.link(k.0, k.1) == d.links[k]);
        }
        lemma_collect_isolated(s, p, n, m);
    }
    lemma_collect_quiet(s, p, n);
    h2
}

/// Nothing is put under way to or from dead nodes.
proof fn lemma_collect_quiet(s: SimView, p: NodeId, n: NodeView)
    requires
        dead_quiet(s.links, s.dead),
    ensures
        dead_quiet(s.collect(p, n).links, s.dead),
{
    let t = s.collect(p, n);
    assert forall|k: (NodeId, NodeId)|
        s.dead.contains(k.0) || s.dead.contains(k.1) implies (#[trigger] t.links[k]).len()
        == 0 by {
        assert(s.links[k].len() == 0);
    }
}

/// What is put under way is what the node sends, but for dead nodes.
proof fn lemma_collect_isolated(s: SimView, p: NodeId, n: NodeView, m: NodeView)
    requires
        s.alive(p),
        s.nodes.len() <= u32::MAX,
        dead_quiet(s.links, s.dead),
        n.settled() == m.settled(),
        n.outbox == m.outbox,
        forall|k: (NodeId, NodeId)|
            k.1 >= s.nodes.len() ==> (#[trigger] s.cluster().flushed(p, m).links[k]).len() == 0,
    ensures
        s.collect(p, n).cluster() == s.cluster().flushed(p, m).isolated(s.dead),
{
    let d = s.cluster().flushed(p, m);
    let t = s.collect(p, n).cluster();
    assert(t.nodes =~= d.nodes);
    assert forall|k: (NodeId, NodeId)| #[trigger] t.links[k] == d.isolated(s.dead).links[k] by {
        if s.dead.contains(k.0) || s.dead.contains(k.1) {
            assert(s.links[k].len() == 0);
            assert(s.links[k] =~= Seq::empty());
        } else if k.1 >= s.nodes.len() {
            assert(d.links[k] =~= s.links[k]);
        }
    }
    assert(t.links =~= d.isolated(s.dead).links);
}

impl SimView {
    /// The simulation is what `h` leads to; nothing waits to be sent, nothing is
    /// under way to or from dead nodes, and the generator is not at zero.
    pub open spec fn led_to_by(self, h: Seq<Event>) -> bool {
        &&& 0 < self.nodes.len() <= u32::MAX
        &&& forall|i: int|
            0 <= i < self.nodes.len() ==> (#[trigger] self.nodes[i]).outbox.len() == 0
        &&& dead_quiet(self.links, self.dead)
        &&& self.rng != 0
        &&& self.cluster() == after(self.policy, sim_members(self.nodes.len()), h)
    }

    /// No lease lapses during `h`.
    pub open spec fn leases_hold(self, h: Seq<Event>) -> bool {
        leases_hold(self.policy, sim_members(self.nodes.len()), h)
    }

    /// No lease on a vote for one of the `live` nodes lapses during `h`.
    pub open spec fn spares(self, h: Seq<Event>, live: Set<NodeId>) -> bool {
        spares(self.policy, sim_members(self.nodes.len()), h, live)
    }

    /// The nodes that have not crashed.
    pub open spec fn live(self) -> Set<NodeId> {
        self.dead.complement()
    }

    /// Between live nodes nothing is lost, no vote is taken from them during `h`,
    /// and none is about to be: everything was delivered at time `base`, and the
    /// live ones of the first `k` nodes have ticked since.
    pub open spec fn in_time(self, h: Seq<Event>, base: Instant, k: nat) -> bool {
        &&& lossless_among(h, self.live())
        &&& self.spares(h, self.live())
        &&& self.cluster().timely(base as int, self.clock as int, k as int, self.live())
    }
}

/// An event that takes no vote from a live node and keeps the cluster timely keeps
/// the simulation in time.
proof fn lemma_in_time_next(
    s: SimView,
    h: Seq<Event>,
    t: SimView,
    h2: Seq<Event>,
    e: Event,
    base: Instant,
    k: nat,
    k2: nat,
)
    requires
        s.in_time(h, base, k),
        continues(h, h2, e, s.dead),
        t.dead == s.dead,
        t.policy == s.policy,
        t.nodes.len() == s.nodes.len(),
        t.cluster() == s.cluster().next(e).isolated(s.dead),
        s.spares(h2, s.live()),
        !(e is Lose),
        s.cluster().next(e).timely(base as int, t.clock as int, k2 as int, s.live()),
    ensures
        t.in_time(h2, base, k2),
{
    let live = s.live();
    let d = s.cluster().next(e);
    assert forall|i: int| 0 <= i < h2.len() implies (#[trigger] h2[i] matches Event::Lose {
        from,
        to,
        ..
    } ==> !(live.contains(from) && live.contains(to))) by {
        if i <= h.len() {
            assert(h2[i] == h2.take(h.len() as int + 1)[i]);
            if i < h.len() {
                assert(h2[i] == h[i]);
            }
        } else {
            assert(strands(h2[i], s.dead));
        }
    }
    assert forall|x: NodeId, y: NodeId|
        live.contains(x) && live.contains(y) implies #[trigger] d.isolated(s.dead).link(x, y)
        == d.link(x, y) by {}
    lemma_timely_links(
        d,
        t.cluster(),
        base as int,
        t.clock as int,
        k2 as int,
        live,
    );
}

/// If no vote is taken from the live nodes, none is taken from fewer of them.
proof fn lemma_spares_fewer(
    policy: QuorumPolicy,
    members: Seq<NodeId>,
    h: Seq<Event>,
    live: Set<NodeId>,
    fewer: Set<NodeId>,
)
    requires
        spares(policy, members, h, live),
        fewer.subset_of(live),
    ensures
        spares(policy, members, h, fewer),
    decreases h.len(),
{
    if h.len() > 0 {
        lemma_spares_fewer(policy, members, h.drop_last(), live, fewer);
    }
}

/// A crash keeps the simulation of the others in time.
proof fn lemma_in_time_crash(s: SimView, h: Seq<Event>, node: NodeId, h2: Seq<Event>)
    requires
        s.in_time(h, s.clock, s.nodes.len()),
        node < s.nodes.len(),
        only_losses(h, h2, set![node]),
        s.spares(h, s.live()) ==> s.spares(h2, s.live()),
    ensures
        s.crash(node).in_time(h2, s.clock, s.nodes.len()),
{
    let t = s.crash(node);
    let live = s.live();
    let fewer = t.live();
    let c = s.cluster();
    let n = s.nodes.len() as int;
    let now = s.clock as int;
    assert(fewer.subset_of(live));
    lemma_spares_fewer(s.policy, sim_members(s.nodes.len()), h2, live, fewer);
    assert forall|i: int| 0 <= i < h2.len() implies (#[trigger] h2[i] matches Event::Lose {
        from,
        to,
        ..
    } ==> !(fewer.contains(from) && fewer.contains(to))) by {
        if i < h.len() {
            assert(h2[i] == h2.take(h.len() as int)[i]);
            assert(h2[i] == h[i]);
        } else {
            assert(strands(h2[i], set![node]));
        }
    }
    lemma_timely_fewer(c, now, now, n, live, fewer);
    assert forall|x: NodeId, y: NodeId|
        fewer.contains(x) && fewer.contains(y) implies #[trigger] t.cluster().link(x, y) == c.link(
        x,
        y,
    ) by {}
    lemma_timely_links(c, t.cluster(), now, now, n, fewer);
}

/// A simulated cluster is in order.
pub proof fn lemma_led_sane(s: SimView, h: Seq<Event>)
    requires
        s.led_to_by(h),
    ensures
        s.cluster().sane(),
        forall|p: NodeId| #[trigger] s.cluster().members.contains(p) <==> p < s.nodes.len(),
{
    lemma_members(s.nodes.len());
    lemma_sane_after(s.policy, sim_members(s.nodes.len()), h);
}

/// Once everything has been delivered, the leases outlast the next step of time.
proof fn lemma_rested(s: SimView, h: Seq<Event>, base: Instant)
    requires
        s.led_to_by(h),
        s.in_time(h, base, s.nodes.len()),
        s.idle(),
    ensures
        s.in_time(h, s.clock, s.nodes.len()),
{
    let c = s.cluster();
    let n = s.nodes.len();
    lemma_led_sane(s, h);
    lemma_members(n);
    lemma_waits_after(s.policy, sim_members(n), h, s.live());
    lemma_idle_at_rest(s);
    lemma_timely_rest(c, base as int, s.clock as int, n as int, s.live());
}

/// When nothing is under way, the cluster is at rest.
proof fn lemma_idle_at_rest(s: SimView)
    requires
        s.idle(),
    ensures
        s.cluster().at_rest(s.live()),
{
    let c = s.cluster();
    assert forall|x: NodeId, y: NodeId| (#[trigger] c.link(x, y)).len() == 0 by {
        assert(s.links[(x, y)].len() == 0);
    }
}

/// Collecting what a live node sends leads to a simulation in order.
proof fn lemma_collect_led(s: SimView, h: Seq<Event>, p: NodeId, n: NodeView, m: NodeView, e: Event) -> (h2:
    Seq<Event>)
    requires
        s.alive(p),
        0 < s.nodes.len() <= u32::MAX,
        forall|i: int| 0 <= i < s.nodes.len() ==> (#[trigger] s.nodes[i]).outbox.len() == 0,
        dead_quiet(s.links, s.dead),
        s.rng != 0,
        n.settled() == m.settled(),
        n.outbox == m.outbox,
        after(s.policy, sim_members(s.nodes.len()), h).next(e) == s.cluster().flushed(p, m),
    ensures
        s.collect(p, n).led_to_by(h2),
        s.collect(p, n).cluster() == s.cluster().flushed(p, m).isolated(s.dead),
        continues(h, h2, e, s.dead),
        forall|live: Set<NodeId>|
            s.spares(h, live) && after(s.policy, sim_members(s.nodes.len()), h).spares(e, live)
                ==> #[trigger] s.spares(h2, live),
        s.leases_hold(h) && after(s.policy, sim_members(s.nodes.len()), h).leases_hold(e)
            ==> s.leases_hold(h2),
{
    let h2 = lemma_collect(s, h, p, n, m, e);
    let t = s.collect(p, n);
    assert forall|i: int| 0 <= i < t.nodes.len() implies (#[trigger] t.nodes[i]).outbox.len()
        == 0 by {
        if i != p {
            assert(t.nodes[i] == s.nodes[i]);
        }
    }
    h2
}

/// A request leads to a simulation in order.
proof fn lemma_request_led(s: SimView, h: Seq<Event>, node: NodeId, lock: Seq<char>) -> (h2: Seq<
    Event,
>)
    requires
        s.led_to_by(h),
        s.alive(node),
        s.nodes[node as int].lamport < u64::MAX,
    ensures
        s.request(node, lock).led_to_by(h2),
        s.request(node, lock).cluster() == s.cluster().next(
            Event::Request { node, now: s.clock, lock },
        ).isolated(s.dead),
        forall|live: Set<NodeId>|
            s.spares(h, live) && s.cluster().spares(Event::Request { node, now: s.clock, lock }, live)
                ==> #[trigger] s.spares(h2, live),
        continues(h, h2, Event::Request { node, now: s.clock, lock }, s.dead),
        s.leases_hold(h) ==> s.leases_hold(h2),
{
    let n = s.nodes[node as int];
    lemma_members(s.nodes.len());
    assert(sim_members(s.nodes.len()).contains(node));
    lemma_reports_do_not_matter(n, s.clock, lock, 0, arbitrary());
    assert(s.cluster().nodes[node] == n.settled());
    lemma_collect_led(
        s,
        h,
        node,
        n.request(s.clock, lock),
        n.settled().request(s.clock, lock),
        Event::Request { node, now: s.clock, lock },
    )
}

/// A release leads to a simulation in order.
proof fn lemma_release_led(s: SimView, h: Seq<Event>, node: NodeId, lock: Seq<char>) -> (h2: Seq<
    Event,
>)
    requires
        s.led_to_by(h),
        s.alive(node),
    ensures
        s.release(node, lock).led_to_by(h2),
        s.release(node, lock).cluster() == s.cluster().next(
            Event::Release { node, lock },
        ).isolated(s.dead),
        forall|live: Set<NodeId>|
            s.spares(h, live) && s.cluster().spares(Event::Release { node, lock }, live)
                ==> #[trigger] s.spares(h2, live),
        continues(h, h2, Event::Release { node, lock }, s.dead),
        s.leases_hold(h) ==> s.leases_hold(h2),
{
    let n = s.nodes[node as int];
    lemma_members(s.nodes.len());
    assert(sim_members(s.nodes.len()).contains(node));
    lemma_reports_do_not_matter(n, s.clock, lock, 0, arbitrary());
    assert(s.cluster().nodes[node] == n.settled());
    lemma_collect_led(
        s,
        h,
        node,
        n.release(lock),
        n.settled().release(lock),
        Event::Release { node, lock },
    )
}

/// A tick leads to a simulation in order.
pub proof fn lemma_tick_led(s: SimView, h: Seq<Event>, node: NodeId) -> (h2: Seq<Event>)
    requires
        s.led_to_by(h),
        s.alive(node),
    ensures
        s.collect(node, s.nodes[node as int].tick(s.clock)).led_to_by(h2),
        s.collect(node, s.nodes[node as int].tick(s.clock)).cluster() == s.cluster().next(
            Event::Tick { node, now: s.clock },
        ).isolated(s.dead),
        forall|live: Set<NodeId>|
            s.spares(h, live) && s.cluster().spares(Event::Tick { node, now: s.clock }, live)
                ==> #[trigger] s.spares(h2, live),
        continues(h, h2, Event::Tick { node, now: s.clock }, s.dead),
        s.leases_hold(h) && s.cluster().leases_hold(Event::Tick { node, now: s.clock })
            ==> s.leases_hold(h2),
{
    let n = s.nodes[node as int];
    lemma_members(s.nodes.len());
    assert(sim_members(s.nodes.len()).contains(node));
    lemma_reports_do_not_matter(n, s.clock, Seq::empty(), 0, arbitrary());
    assert(s.cluster().nodes[node] == n.settled());
    lemma_collect_led(
        s,
        h,
        node,
        n.tick(s.clock),
        n.settled().tick(s.clock),
        Event::Tick { node, now: s.clock },
    )
}

/// What the links with something under way are.
proof fn lemma_active_row(s: SimView, p: NodeId, k: nat)
    requires
        k <= s.nodes.len() <= u32::MAX,
        p < s.nodes.len(),
    ensures
        forall|i: int|
            0 <= i < s.active_row(p, k).len() ==> (#[trigger] s.active_row(p, k)[i]).0 == p
                && s.active_row(p, k)[i].1 < k && s.links[s.active_row(p, k)[i]].len() > 0,
        s.active_row(p, k).len() == 0 ==> forall|t: NodeId|
            t < k ==> (#[trigger] s.links[(p, t)]).len() == 0,
    decreases k,
{
    if k > 0 {
        lemma_active_row(s, p, (k - 1) as nat);
        if s.active_row(p, k).len() == 0 {
            assert forall|t: NodeId| t < k implies (#[trigger] s.links[(p, t)]).len() == 0 by {
                if t == k - 1 {
                    assert(s.links[(p, (k - 1) as NodeId)].len() == 0);
                }
            }
        }
    }
}

/// What the links with something under way are.
proof fn lemma_active_rows(s: SimView, k: nat)
    requires
        k <= s.nodes.len() <= u32::MAX,
    ensures
        forall|i: int|
            0 <= i < s.active_rows(k).len() ==> (#[trigger] s.active_rows(k)[i]).0 < k
                && s.active_rows(k)[i].1 < s.nodes.len() && s.links[s.active_rows(k)[i]].len() > 0,
        s.active_rows(k).len() == 0 ==> forall|p: NodeId, t: NodeId|
            p < k && t < s.nodes.len() ==> (#[trigger] s.links[(p, t)]).len() == 0,
    decreases k,
{
    if k > 0 {
        let p = (k - 1) as NodeId;
        lemma_active_rows(s, (k - 1) as nat);
        lemma_active_row(s, p, s.nodes.len());
        let a = s.active_rows((k - 1) as nat);
        let b = s.active_row(p, s.nodes.len());
        assert(s.active_rows(k) == a + b);
        assert forall|i: int| 0 <= i < s.active_rows(k).len() implies (#[trigger] s.active_rows(
            k,
        )[i]).0 < k && s.active_rows(k)[i].1 < s.nodes.len() && s.links[s.active_rows(
            k,
        )[i]].len() > 0 by {
            if i < a.len() {
                assert(s.active_rows(k)[i] == a[i]);
            } else {
                assert(s.active_rows(k)[i] == b[i - a.len()]);
            }
        }
    }
}

/// With nothing active, nothing is under way.
pub proof fn lemma_inactive_is_idle(s: SimView, h: Seq<Event>)
    requires
        s.led_to_by(h),
    ensures
        s.active().len() == 0 <==> s.idle(),
{
    let n = s.nodes.len();
    lemma_active_rows(s, n);
    lemma_members(n);
    lemma_sane_after(s.policy, sim_members(n), h);
    if s.active().len() == 0 {
        assert forall|k: (NodeId, NodeId)| (#[trigger] s.links[k]).len() == 0 by {
            assert(s.cluster().sane_link(k.0, k.1));
            assert(s.cluster().link(k.0, k.1) == s.links[k]);
            if s.links[k].len() > 0 {
                assert(s.links[(k.0, k.1)].len() == 0);
            }
        }
    } else {
        assert(s.links[s.active()[0]].len() > 0);
    }
}

/// What the generator picks is a link between live nodes with something under
/// way.
pub proof fn lemma_next_link(s: SimView, h: Seq<Event>)
    requires
        s.led_to_by(h),
        s.active().len() > 0,
    ensures
        s.alive(s.next_link().0),
        s.alive(s.next_link().1),
        s.links[s.next_link()].len() > 0,
{
    let i = (xorshift(s.rng) as int) % (s.active().len() as int);
    lemma_active_rows(s, s.nodes.len());
    assert(0 <= i < s.active().len());
}

/// The simulation with the head of link `key` taken off.
spec fn popped(s: SimView, key: (NodeId, NodeId)) -> SimView {
    SimView {
        rng: xorshift(s.rng),
        links: s.links.insert(key, s.links[key].remove(0)),
        ..s
    }
}

/// Taking off a head keeps the simulation in order.
proof fn lemma_popped(s: SimView, key: (NodeId, NodeId))
    requires
        s.rng != 0,
        dead_quiet(s.links, s.dead),
        s.alive(key.0),
        s.alive(key.1),
    ensures
        dead_quiet(popped(s, key).links, s.dead),
        popped(s, key).rng != 0,
        popped(s, key).cluster() == s.cluster().with_link(key.0, key.1, s.links[key].remove(0)),
{
    let t = popped(s, key);
    lemma_xorshift_nonzero(s.rng);
    assert forall|k: (NodeId, NodeId)|
        t.dead.contains(k.0) || t.dead.contains(k.1) implies (#[trigger] t.links[k]).len() == 0 by {
        assert(s.links[k].len() == 0);
    }
}

/// A delivery in the simulation is one in the cluster.
proof fn lemma_next_deliver(s: SimView, h: Seq<Event>)
    requires
        s.led_to_by(h),
        s.active().len() > 0,
    ensures
        ({
            let key = s.next_link();
            s.cluster().next(s.next_delivery()) == popped(s, key).cluster().flushed(
                key.1,
                s.nodes[key.1 as int].settled().handle(s.clock, key.0, s.links[key][0]),
            )
        }),
        s.cluster().next(s.next_delivery()).load() < s.cluster().load(),
        s.cluster().next(s.next_delivery()).sane(),
{
    let key = s.next_link();
    let c = s.cluster();
    lemma_next_link(s, h);
    lemma_popped(s, key);
    lemma_members(s.nodes.len());
    lemma_sane_after(s.policy, sim_members(s.nodes.len()), h);
    assert(c.link(key.0, key.1) == s.links[key]);
    assert(sim_members(s.nodes.len()).contains(key.1));
    law_deliveries_end(c, key.0, key.1, s.clock);
    lemma_sane_next(c, s.next_delivery());
}

/// What is lost on the way to dead nodes makes the load lighter.
proof fn lemma_collect_load(s: SimView, p: NodeId, n: NodeView, m: NodeView)
    requires
        s.alive(p),
        s.nodes.len() <= u32::MAX,
        dead_quiet(s.links, s.dead),
        n.outbox == m.outbox,
        s.cluster().flushed(p, m).sane(),
    ensures
        s.collect(p, n).cluster().load() <= s.cluster().flushed(p, m).load(),
{
    let d = s.cluster().flushed(p, m);
    let f = s.collect(p, n).cluster();
    lemma_members(s.nodes.len());
    assert forall|x: NodeId, y: NodeId| #[trigger] f.link(x, y) == d.link(x, y) || f.link(x, y).len()
        == 0 by {
        assert(d.sane_link(x, y));
        if x == p && !s.alive(y) {
            assert(f.link(x, y) == s.links[(x, y)]);
        }
    }
    lemma_load_fewer(d, f);
}

/// A delivery leads to a simulation in order, with a lighter load.
pub proof fn lemma_step_led(s: SimView, h: Seq<Event>) -> (h2: Seq<Event>)
    requires
        s.led_to_by(h),
        s.active().len() > 0,
    ensures
        s.step().led_to_by(h2),
        s.step().cluster() == s.cluster().next(s.next_delivery()).isolated(s.dead),
        forall|live: Set<NodeId>| s.spares(h, live) ==> #[trigger] s.spares(h2, live),
        continues(h, h2, s.next_delivery(), s.dead),
        s.leases_hold(h) ==> s.leases_hold(h2),
        s.step().cluster().load() < s.cluster().load(),
{
    let key = s.next_link();
    lemma_next_link(s, h);
    lemma_popped(s, key);
    lemma_next_deliver(s, h);
    lemma_reports_do_not_matter(
        s.nodes[key.1 as int],
        s.clock,
        Seq::empty(),
        key.0,
        s.links[key][0],
    );
    lemma_delivered_led(
        s,
        h,
        key,
        s.nodes[key.1 as int].handle(s.clock, key.0, s.links[key][0]),
        s.nodes[key.1 as int].settled().handle(s.clock, key.0, s.links[key][0]),
    )
}

/// A request leads to a simulation in order and in time.
pub proof fn lemma_request_in_time(s: SimView, h: Seq<Event>, node: NodeId, lock: Seq<char>) -> (h2:
    Seq<Event>)
    requires
        s.led_to_by(h),
        s.in_time(h, s.clock, s.nodes.len()),
        s.alive(node),
        s.nodes[node as int].lamport < u64::MAX,
        s.clock + RENEW_INTERVAL <= u64::MAX,
    ensures
        s.request(node, lock).led_to_by(h2),
        s.request(node, lock).in_time(h2, s.clock, s.nodes.len()),
        continues(h, h2, Event::Request { node, now: s.clock, lock }, s.dead),
        s.leases_hold(h) ==> s.leases_hold(h2),
{
    let h2 = lemma_request_led(s, h, node, lock);
    let t = s.request(node, lock);
    let n = s.nodes.len();
    let e = Event::Request { node, now: s.clock, lock };
    lemma_led_sane(s, h);
    lemma_timely_request(s.cluster(), node, s.clock, n as int, s.live(), lock);
    lemma_in_time_next(s, h, t, h2, e, s.clock, n, n);
    h2
}

/// A release leads to a simulation in order and in time.
pub proof fn lemma_release_in_time(s: SimView, h: Seq<Event>, node: NodeId, lock: Seq<char>) -> (h2:
    Seq<Event>)
    requires
        s.led_to_by(h),
        s.in_time(h, s.clock, s.nodes.len()),
        s.alive(node),
    ensures
        s.release(node, lock).led_to_by(h2),
        s.release(node, lock).in_time(h2, s.clock, s.nodes.len()),
        continues(h, h2, Event::Release { node, lock }, s.dead),
        s.leases_hold(h) ==> s.leases_hold(h2),
{
    let h2 = lemma_release_led(s, h, node, lock);
    let t = s.release(node, lock);
    let n = s.nodes.len();
    let e = Event::Release { node, lock };
    let now = s.clock as int;
    lemma_led_sane(s, h);
    lemma_timely_release(s.cluster(), node, now, now, n as int, s.live(), lock);
    lemma_in_time_next(s, h, t, h2, e, s.clock, n, n);
    h2
}

/// A delivery leads to a simulation in order and in time, with a lighter load.
pub proof fn lemma_step_in_time(s: SimView, h: Seq<Event>, base: Instant) -> (h2: Seq<Event>)
    requires
        s.led_to_by(h),
        s.in_time(h, base, s.nodes.len()),
        s.active().len() > 0,
        s.clock + LEASE <= u64::MAX,
    ensures
        s.step().led_to_by(h2),
        s.step().in_time(h2, base, s.nodes.len()),
        continues(h, h2, s.next_delivery(), s.dead),
        s.leases_hold(h) ==> s.leases_hold(h2),
        s.step().cluster().load() < s.cluster().load(),
{
    let h2 = lemma_step_led(s, h);
    let key = s.next_link();
    let n = s.nodes.len();
    lemma_led_sane(s, h);
    lemma_next_link(s, h);
    lemma_timely_deliver(
        s.cluster(),
        key.0,
        key.1,
        s.clock,
        base as int,
        n as int,
        s.live(),
    );
    lemma_in_time_next(s, h, s.step(), h2, s.next_delivery(), base, n, n);
    h2
}

/// [`lemma_step_led`] for what the delivery has made of the node.
proof fn lemma_delivered_led(
    s: SimView,
    h: Seq<Event>,
    key: (NodeId, NodeId),
    n: NodeView,
    m: NodeView,
) -> (h2: Seq<Event>)
    requires
        s.led_to_by(h),
        s.alive(key.1),
        dead_quiet(popped(s, key).links, s.dead),
        popped(s, key).rng != 0,
        n.settled() == m.settled(),
        n.outbox == m.outbox,
        s.cluster().next(s.next_delivery()) == popped(s, key).cluster().flushed(key.1, m),
        s.cluster().next(s.next_delivery()).load() < s.cluster().load(),
        s.cluster().next(s.next_delivery()).sane(),
    ensures
        popped(s, key).collect(key.1, n).led_to_by(h2),
        popped(s, key).collect(key.1, n).cluster() == popped(s, key).cluster().flushed(
            key.1,
            m,
        ).isolated(s.dead),
        forall|live: Set<NodeId>| s.spares(h, live) ==> #[trigger] s.spares(h2, live),
        continues(h, h2, s.next_delivery(), s.dead),
        s.leases_hold(h) ==> s.leases_hold(h2),
        popped(s, key).collect(key.1, n).cluster().load() < s.cluster().load(),
{
    let t = popped(s, key);
    lemma_collect_load(t, key.1, n, m);
    let h2 = lemma_collect_led(t, h, key.1, n, m, s.next_delivery());
    assert forall|live: Set<NodeId>| s.spares(h, live) implies #[trigger] s.spares(h2, live) by {
        assert(t.spares(h, live));
        assert(t.spares(h2, live));
    }
    h2
}

/// The members `0..n` are distinct.
pub proof fn lemma_members(n: nat)
    requires
        n <= u32::MAX,
    ensures
        sim_members(n).no_duplicates(),
        forall|p: NodeId| #[trigger] sim_members(n).contains(p) <==> p < n,
{
    assert forall|p: NodeId| #[trigger] sim_members(n).contains(p) <==> p < n by {
        if p < n {
            assert(sim_members(n)[p as int] == p);
        }
    }
}

// ---- the simulator -----------------------------------------------------------------------
/// The contents of a queue of messages.
pub open spec fn message_views(s: Seq<Message>) -> Seq<MessageView> {
    s.map_values(|m: Message| m@)
}

/// What is under way on a link.
spec fn link_view(links: Seq<Vec<VecDeque<Message>>>, k: (NodeId, NodeId)) -> Seq<MessageView> {
    if k.0 < links.len() && k.1 < links[k.0 as int]@.len() {
        message_views(links[k.0 as int]@[k.1 as int]@)
    } else {
        Seq::empty()
    }
}

/// An in-memory cluster of [`Node`]s connected by FIFO (TCP-like) links.
///
/// Node ids are `0..n` and equal their index in [`Sim::nodes`]. A logical
/// clock is held fixed during message delivery ([`Sim::step`]) and only moves
/// when time is passed explicitly ([`Sim::advance`]), so lease behaviour is
/// exercised deliberately rather than incidentally.
pub struct Sim {
    pub nodes: Vec<Node>,
    policy: QuorumPolicy,
    links: Vec<Vec<VecDeque<Message>>>,
    dead: Vec<bool>,
    clock: Instant,
    rng: u64,
    history: Ghost<Seq<Event>>,
}

impl View for Sim {
    type V = SimView;

    closed spec fn view(&self) -> SimView {
        SimView {
            policy: self.policy,
            nodes: self.nodes@.map_values(|n: Node| n@),
            links: Map::new(
                |k: (NodeId, NodeId)| true,
                |k: (NodeId, NodeId)| link_view(self.links@, k),
            ),
            dead: Set::new(|p: NodeId| p < self.dead@.len() && self.dead@[p as int]),
            clock: self.clock,
            rng: self.rng,
        }
    }
}

impl Sim {
    /// The events that led to the simulated cluster.
    pub closed spec fn history(&self) -> Seq<Event> {
        self.history@
    }

    /// The members of the simulated cluster.
    pub open spec fn members(&self) -> Seq<NodeId> {
        sim_members(self@.nodes.len())
    }

    /// No lease has lapsed so far.
    pub open spec fn leases_held(&self) -> bool {
        leases_hold(self@.policy, self.members(), self.history())
    }

    /// The private bookkeeping fits: one row of links per node, one link per
    /// pair, consistent nodes.
    spec fn shape(&self) -> bool {
        let n = self.nodes@.len();
        &&& 0 < n <= u32::MAX
        &&& self.links@.len() == n
        &&& self.dead@.len() == n
        &&& forall|i: int| 0 <= i < n ==> (#[trigger] self.links@[i])@.len() == n
        &&& forall|i: int| 0 <= i < n ==> (#[trigger] self.nodes@[i]).wf()
    }

    /// The simulation is what its events lead to.
    spec fn led(&self) -> bool {
        &&& self.shape()
        &&& self@.led_to_by(self.history@)
    }

    /// [`SimView::in_time`] with the events so far.
    spec fn in_time(&self, base: Instant, k: nat) -> bool {
        self@.in_time(self.history@, base, k)
    }

    /// The simulation is consistent: it is what its events lead to, and leases
    /// hold unless nodes crash.
    pub closed spec fn wf(&self) -> bool {
        &&& self.led()
        &&& self.in_time(self.clock, self@.nodes.len())
    }

    /// What a consistent simulation shows.
    pub proof fn lemma_wf_view(&self)
        requires
            self.wf(),
        ensures
            0 < self@.nodes.len() <= u32::MAX,
            self@.cluster() == after(self@.policy, self.members(), self.history()),
            self@.cluster().sane(),
            dead_quiet(self@.links, self@.dead),
            self@.rng != 0,
    {
        lemma_members(self@.nodes.len());
        lemma_sane_after(self.policy, self.members(), self.history@);
    }

    /// A consistent simulation is what its events lead to, with consistent nodes.
    pub proof fn lemma_wf_led(&self)
        requires
            self.wf(),
        ensures
            self@.led_to_by(self.history()),
            self@.in_time(self.history(), self@.clock, self@.nodes.len()),
            forall|i: int| 0 <= i < self@.nodes.len() ==> (#[trigger] self@.nodes[i]).wf(),
    {
        assert forall|i: int| 0 <= i < self@.nodes.len() implies (
        #[trigger] self@.nodes[i]).wf() by {
            let p = i as NodeId;
            lemma_led_sane(self@, self.history());
            assert(self@.cluster().members.contains(p));
            assert(self@.cluster().sane_node(p));
            assert(self@.cluster().nodes[p] == self@.nodes[i].settled());
        }
    }

    /// Move what node `from` wants to send onto its links.
    fn collect(&mut self, from: usize)
        requires
            old(self).shape(),
            from < old(self)@.nodes.len(),
        ensures
            final(self).shape(),
            final(self)@ == old(self)@.collect(
                from as NodeId,
                old(self)@.nodes[from as int],
            ),
            final(self).history@ == old(self).history@,
    {
        let ghost s = self@;
        let ghost p = from as NodeId;
        let ghost n = self@.nodes[from as int];
        let out = self.nodes[from].drain_outbox();
        let ghost views = outgoing_views(out@);
        let ghost mut k: int = 0;
        proof {
            assert(views.take(0) =~= Seq::empty());
            assert(self@.nodes =~= s.nodes.update(from as int, NodeView { outbox: Seq::empty(), ..n }));
            assert(self@.links =~= s.links_with(p, views.take(0)));
        }
        for o in it: out
            invariant
                self.shape(),
                from < self.nodes@.len(),
                p == from,
                it.seq() == out@,
                views == outgoing_views(out@),
                self.history@ == old(self).history@,
                s.nodes.len() == self.nodes@.len(),
                self@.nodes == s.nodes.update(from as int, NodeView { outbox: Seq::empty(), ..n }),
                self@.dead == s.dead,
                self@.policy == s.policy,
                self@.clock == s.clock,
                self@.rng == s.rng,
                self@.links == s.links_with(p, views.take(it.index() as int)),
        {
            let ghost i = it.index() as int;
            let ghost before = self@;
            proof {
                assert(views.take(i + 1).drop_last() =~= views.take(i));
                assert(views.take(i + 1).last() == o@);
            }
            let Outgoing { to, msg } = o;
            if (to as usize) < self.nodes.len() && !self.dead[from] && !self.dead[to as usize] {
                let ghost queue = self.links@[from as int]@[to as int]@;
                let row = &mut self.links[from];
                row[to as usize].push_back(msg);
                proof {
                    assert(message_views(queue.push(msg)) =~= message_views(queue).push(msg@));
                    assert(before.links[(p, to)] == message_views(queue));
                    assert(self@.links[(p, to)] == message_views(queue.push(msg)));
                }
            }
            proof {
                assert forall|key: (NodeId, NodeId)| #[trigger]
                    self@.links[key] == s.links_with(p, views.take(i + 1))[key] by {
                    assert(before.links[key] == s.links_with(p, views.take(i))[key]);
                    if key == (p, to) && s.alive(p) && s.alive(to) {
                        let t = sent_to(views.take(i), to);
                        assert(s.links[key] + t.push(msg@) =~= (s.links[key] + t).push(msg@));
                    }
                }
                assert(self@.links =~= s.links_with(p, views.take(i + 1)));
            }
        }
        proof {
            assert(views.take(views.len() as int) =~= views);
            assert(self@.links =~= s.collect(p, n).links);
        }
    }

    /// Build an `n`-node cluster with a default seed.
    pub fn new(n: usize) -> (s: Sim)
        requires
            0 < n <= u32::MAX,
        ensures
            s.wf(),
            s@ == SimView::start(n as nat, 0x9E37_79B9_7F4A_7C15, QuorumPolicy::Majority),
            s.history() == Seq::<Event>::empty(),
    {
        Sim::with_seed(n, 0x9E37_79B9_7F4A_7C15)
    }

    /// Build an `n`-node cluster with an explicit seed (for reproducible
    /// delivery orders across test cases).
    pub fn with_seed(n: usize, seed: u64) -> (s: Sim)
        requires
            0 < n <= u32::MAX,
        ensures
            s.wf(),
            s@ == SimView::start(n as nat, seed, QuorumPolicy::Majority),
            s.history() == Seq::<Event>::empty(),
    {
        Sim::with_seed_policy(n, seed, QuorumPolicy::Majority)
    }

    /// Build an `n`-node cluster with an explicit seed and quorum policy.
    pub fn with_seed_policy(n: usize, seed: u64, policy: QuorumPolicy) -> (s: Sim)
        requires
            0 < n <= u32::MAX,
        ensures
            s.wf(),
            s@ == SimView::start(n as nat, seed, policy),
            s.history() == Seq::<Event>::empty(),
    {
        let mut members: Vec<NodeId> = Vec::new();
        let mut i: usize = 0;
        while i < n
            invariant
                n <= u32::MAX,
                i <= n,
                members@ == sim_members(i as nat),
            decreases n - i,
        {
            members.push(i as NodeId);
            i += 1;
            assert(members@ =~= sim_members(i as nat));
        }
        let mut nodes: Vec<Node> = Vec::new();
        let mut links: Vec<Vec<VecDeque<Message>>> = Vec::new();
        let mut dead: Vec<bool> = Vec::new();
        let mut i: usize = 0;
        while i < n
            invariant
                0 < n <= u32::MAX,
                i <= n,
                members@ == sim_members(n as nat),
                nodes@.len() == i,
                links@.len() == i,
                dead@.len() == i,
                forall|j: int|
                    0 <= j < i ==> (#[trigger] nodes@[j]).wf() && nodes@[j]@ == NodeView::fresh(
                        j as NodeId,
                        policy,
                        sim_members(n as nat),
                    ),
                forall|j: int| 0 <= j < i ==> (#[trigger] links@[j])@.len() == n,
                forall|j: int, k: int|
                    0 <= j < i && 0 <= k < n ==> (#[trigger] links@[j]@[k])@.len() == 0,
                forall|j: int| 0 <= j < i ==> !(#[trigger] dead@[j]),
            decreases n - i,
        {
            proof {
                lemma_members(n as nat);
                assert(sim_members(n as nat).contains(i as NodeId));
            }
            let all = members.clone();
            assert(all@ =~= members@);
            nodes.push(Node::with_policy(i as NodeId, all, policy));
            let mut row: Vec<VecDeque<Message>> = Vec::new();
            let mut k: usize = 0;
            while k < n
                invariant
                    k <= n,
                    row@.len() == k,
                    forall|j: int| 0 <= j < k ==> (#[trigger] row@[j])@.len() == 0,
                decreases n - k,
            {
                row.push(VecDeque::new());
                k += 1;
            }
            links.push(row);
            dead.push(false);
            i += 1;
        }
        let rng: u64 = if seed == 0 {
            0x1234_5678_9ABC_DEF1
        } else {
            seed
        };
        let s = Sim { nodes, policy, links, dead, clock: 0, rng, history: Ghost(Seq::empty()) };
        proof {
            let v = SimView::start(n as nat, seed, policy);
            lemma_members(n as nat);
            assert(s@.nodes =~= v.nodes);
            assert(s@.links =~= v.links) by {
                assert forall|k: (NodeId, NodeId)| #[trigger] s@.links[k] == v.links[k] by {
                    if k.0 < n && k.1 < n {
                        assert(links@[k.0 as int]@[k.1 as int]@.len() == 0);
                    }
                    assert(s@.links[k] =~= Seq::empty());
                }
            }
            assert(s@.dead =~= Set::empty());
            let c = ClusterView::start(policy, sim_members(n as nat));
            assert(s@.cluster().nodes =~= c.nodes) by {
                assert forall|p: NodeId| p < n implies #[trigger] s@.cluster().nodes[p]
                    == c.nodes[p] by {
                    assert(s@.nodes[p as int] == nodes@[p as int]@);
                    assert(sim_members(n as nat).contains(p));
                }
                assert forall|p: NodeId| #[trigger] c.nodes.contains_key(p) <==> p < n by {
                    assert(sim_members(n as nat).contains(p) <==> p < n);
                }
            }
            assert(s@.cluster().links =~= c.links);
            assert(c.timely(0, 0, n as int, s@.live()));
        }
        s
    }

    /// The current logical time.
    pub fn now(&self) -> (t: Instant)
        ensures
            t == self@.clock,
    {
        self.clock
    }

    /// A node of the simulation.
    pub fn node(&self, i: usize) -> (n: &Node)
        requires
            self.wf(),
            i < self@.nodes.len(),
        ensures
            n.wf(),
            n@ == self@.nodes[i as int],
    {
        &self.nodes[i]
    }

    /// Whether `node` exists and has not crashed.
    fn is_alive(&self, node: NodeId) -> (b: bool)
        requires
            self.shape(),
        ensures
            b == self@.alive(node),
    {
        (node as usize) < self.nodes.len() && !self.dead[node as usize]
    }

    /// Crash `node`: it stops sending, receiving, and ticking, and all messages
    /// queued to or from it are dropped (a fail-stop and partition). Its votes
    /// held at other arbiters lapse and are reclaimed once time advances.
    pub fn crash(&mut self, node: NodeId)
        requires
            old(self).wf(),
        ensures
            final(self).wf(),
            final(self)@ == old(self)@.crash(node),
            old(self).leases_held() ==> final(self).leases_held(),
    {
        if (node as usize) >= self.nodes.len() {
            return ;
        }
        let n = self.nodes.len();
        let at = node as usize;
        self.dead.set(at, true);
        let mut i: usize = 0;
        while i < n
            invariant
                n == self.nodes@.len(),
                0 < n <= u32::MAX,
                at < n,
                at == node,
                i <= n,
                self.nodes@ == old(self).nodes@,
                self.links@.len() == n,
                old(self).links@.len() == n,
                self.policy == old(self).policy,
                self.clock == old(self).clock,
                self.rng == old(self).rng,
                self.history@ == old(self).history@,
                self.dead@ == old(self).dead@.update(at as int, true),
                forall|j: int| 0 <= j < n ==> (#[trigger] self.links@[j])@.len() == n,
                forall|j: int| 0 <= j < n ==> (#[trigger] old(self).links@[j])@.len() == n,
                forall|j: int, k: int|
                    #![trigger self.links@[j]@[k]]
                    0 <= j < n && 0 <= k < n ==> self.links@[j]@[k]@ == (if j < i && (j == at || k
                        == at) {
                        Seq::empty()
                    } else {
                        old(self).links@[j]@[k]@
                    }),
            decreases n - i,
        {
            let ghost before = self.links@;
            if i == at {
                let mut k: usize = 0;
                while k < n
                    invariant
                        n == self.nodes@.len(),
                        i < n,
                        i == at,
                        k <= n,
                        self.nodes@ == old(self).nodes@,
                        self.links@.len() == n,
                        before.len() == n,
                        self.policy == old(self).policy,
                        self.clock == old(self).clock,
                        self.rng == old(self).rng,
                        self.history@ == old(self).history@,
                        self.dead@ == old(self).dead@.update(at as int, true),
                        forall|j: int| 0 <= j < n ==> (#[trigger] self.links@[j])@.len() == n,
                        forall|j: int|
                            0 <= j < n && j != i ==> #[trigger] self.links@[j] == before[j],
                        forall|m: int|
                            0 <= m < n ==> (#[trigger] self.links@[i as int]@[m])@ == (if m < k {
                                Seq::empty()
                            } else {
                                before[i as int]@[m]@
                            }),
                    decreases n - k,
                {
                    let row = &mut self.links[i];
                    row[k].clear();
                    k += 1;
                }
            } else {
                let row = &mut self.links[i];
                row[at].clear();
            }
            i += 1;
        }
        proof {
            let s = old(self)@;
            let t = s.crash(node);
            assert(self@.nodes == s.nodes);
            assert(self@.dead =~= t.dead);
            assert(self@.links =~= t.links) by {
                assert forall|k: (NodeId, NodeId)| #[trigger] self@.links[k] == t.links[k] by {
                    if k.0 < n && k.1 < n {
                        assert(self.links@[k.0 as int]@[k.1 as int]@ == (if k.0 == at || k.1
                            == at {
                            Seq::empty()
                        } else {
                            old(self).links@[k.0 as int]@[k.1 as int]@
                        }));
                        assert(message_views(Seq::empty()) =~= Seq::empty());
                    }
                    assert(s.links[k] == link_view(old(self).links@, k));
                }
            }
            lemma_members(n as nat);
            let h2 = lemma_isolate(self.policy, self.members(), self.history@, set![node]);
            assert(t.cluster() == s.cluster().isolated(set![node]));
            lemma_in_time_crash(s, self.history@, node, h2);
            self.history@ = h2;
        }
    }

    /// Have `node` start acquiring `lock`.
    pub fn request(&mut self, node: NodeId, lock: &str)
        requires
            old(self).wf(),
            old(self)@.alive(node) ==> old(self)@.nodes[node as int].lamport < u64::MAX,
            old(self)@.clock + RENEW_INTERVAL <= u64::MAX,
        ensures
            final(self).wf(),
            final(self)@ == old(self)@.request(node, lock@),
            old(self).leases_held() ==> final(self).leases_held(),
            old(self)@.alive(node) ==> continues(
                old(self).history(),
                final(self).history(),
                Event::Request { node, now: old(self)@.clock, lock: lock@ },
                old(self)@.dead,
            ),
            !old(self)@.alive(node) ==> final(self).history() == old(self).history(),
    {
        if !self.is_alive(node) {
            return ;
        }
        let at = node as usize;
        let ghost s = self@;
        let ghost n = s.nodes[at as int];
        assert(n == self.nodes@[at as int]@);
        self.nodes[at].request(self.clock, lock);
        assert(self@.nodes =~= s.nodes.update(at as int, n.request(s.clock, lock@)));
        self.collect(at);
        proof {
            assert(self@.nodes =~= s.request(node, lock@).nodes);
            assert(self@ == s.request(node, lock@));
            self.history@ = lemma_request_in_time(s, self.history@, node, lock@);
        }
    }

    /// Have `node` release `lock`.
    pub fn release(&mut self, node: NodeId, lock: &str)
        requires
            old(self).wf(),
        ensures
            final(self).wf(),
            final(self)@ == old(self)@.release(node, lock@),
            old(self).leases_held() ==> final(self).leases_held(),
            old(self)@.alive(node) ==> continues(
                old(self).history(),
                final(self).history(),
                Event::Release { node, lock: lock@ },
                old(self)@.dead,
            ),
            !old(self)@.alive(node) ==> final(self).history() == old(self).history(),
    {
        if !self.is_alive(node) {
            return ;
        }
        let at = node as usize;
        let ghost s = self@;
        let ghost n = s.nodes[at as int];
        assert(n == self.nodes@[at as int]@);
        self.nodes[at].release(self.clock, lock);
        assert(self@.nodes =~= s.nodes.update(at as int, n.release(lock@)));
        self.collect(at);
        proof {
            assert(self@.nodes =~= s.release(node, lock@).nodes);
            assert(self@ == s.release(node, lock@));
            self.history@ = lemma_release_in_time(s, self.history@, node, lock@);
        }
    }

    /// The next number of the generator.
    fn next_rand(&mut self) -> (x: u64)
        requires
            old(self).rng != 0,
        ensures
            x == xorshift(old(self)@.rng),
            final(self)@ == (SimView { rng: x, ..old(self)@ }),
            final(self).rng != 0,
            final(self).nodes@ == old(self).nodes@,
            final(self).links@ == old(self).links@,
            final(self).dead@ == old(self).dead@,
            final(self).history@ == old(self).history@,
    {
        let mut x: u64 = self.rng;
        proof {
            lemma_xorshift_nonzero(x);
        }
        x = x ^ (x << 13u64);
        x = x ^ (x >> 7u64);
        x = x ^ (x << 17u64);
        self.rng = x;
        x
    }

    /// The links that have something under way, in order.
    fn active(&self) -> (v: Vec<(NodeId, NodeId)>)
        requires
            self.shape(),
        ensures
            v@ == self@.active(),
    {
        let n = self.nodes.len();
        let mut v: Vec<(NodeId, NodeId)> = Vec::new();
        let mut i: usize = 0;
        while i < n
            invariant
                self.shape(),
                n == self.nodes@.len(),
                n == self@.nodes.len(),
                i <= n,
                v@ == self@.active_rows(i as nat),
            decreases n - i,
        {
            let ghost done = v@;
            let mut k: usize = 0;
            assert(v@ =~= done + self@.active_row(i as NodeId, 0));
            while k < n
                invariant
                    self.shape(),
                    n == self.nodes@.len(),
                    n <= u32::MAX,
                    i < n,
                    k <= n,
                    v@ == done + self@.active_row(i as NodeId, k as nat),
                decreases n - k,
            {
                proof {
                    let key = (i as NodeId, k as NodeId);
                    assert(self@.links[key] == message_views(self.links@[i as int]@[k as int]@));
                }
                if self.links[i][k].len() > 0 {
                    v.push((i as NodeId, k as NodeId));
                }
                k += 1;
                assert(v@ =~= done + self@.active_row(i as NodeId, k as nat));
            }
            i += 1;
        }
        v
    }
}

impl Sim {
    /// Deliver one in-flight message. A random non-empty link is chosen, and
    /// that link's head is delivered (preserving FIFO order on the link).
    /// Returns `false` when the network is idle.
    pub fn step(&mut self) -> (delivered: bool)
        requires
            old(self).wf(),
            old(self)@.clock + LEASE <= u64::MAX,
        ensures
            final(self).wf(),
            delivered == !old(self)@.idle(),
            final(self)@ == old(self)@.step(),
            old(self).leases_held() ==> final(self).leases_held(),
            delivered ==> continues(
                old(self).history(),
                final(self).history(),
                old(self)@.next_delivery(),
                old(self)@.dead,
            ),
            !delivered ==> final(self).history() == old(self).history(),
            delivered ==> final(self)@.cluster().load() < old(self)@.cluster().load(),
    {
        let ghost base = self.clock;
        self.deliver(Ghost(base))
    }

    /// [`Sim::step`] while everything was last delivered at time `base`.
    #[verifier::spinoff_prover]
    #[verifier::rlimit(40)]
    fn deliver(&mut self, Ghost(base): Ghost<Instant>) -> (delivered: bool)
        requires
            old(self).led(),
            old(self).in_time(base, old(self)@.nodes.len()),
            old(self)@.clock + LEASE <= u64::MAX,
        ensures
            final(self).led(),
            final(self).in_time(base, old(self)@.nodes.len()),
            final(self)@.clock == old(self)@.clock,
            final(self)@.nodes.len() == old(self)@.nodes.len(),
            delivered == !old(self)@.idle(),
            final(self)@ == old(self)@.step(),
            old(self).leases_held() ==> final(self).leases_held(),
            delivered ==> continues(
                old(self).history(),
                final(self).history(),
                old(self)@.next_delivery(),
                old(self)@.dead,
            ),
            !delivered ==> final(self).history() == old(self).history(),
            delivered ==> final(self)@.cluster().load() < old(self)@.cluster().load(),
    {
        let ghost s = self@;
        let active = self.active();
        proof {
            lemma_inactive_is_idle(s, self.history@);
            lemma_active_rows(s, s.nodes.len());
        }
        if active.len() == 0 {
            return false;
        }
        let x = self.next_rand();
        let i = (x % (active.len() as u64)) as usize;
        let key = active[i];
        let (from, to) = key;
        let ghost link = s.links[key];
        proof {
            assert(s.active()[i as int] == key);
            assert(link.len() > 0);
            assert(link == link_view(self.links@, key));
        }
        let ghost queue = self.links@[from as int]@[to as int]@;
        let row = &mut self.links[from as usize];
        let msg = row[to as usize].pop_front();
        let ghost mid = self@;
        proof {
            assert(link == message_views(queue));
            assert(message_views(self.links@[from as int]@[to as int]@) =~= link.remove(0));
            assert(mid.links =~= s.links.insert(key, link.remove(0)));
        }
        if let Some(msg) = msg {
            assert(msg@ == link[0]);
            assert(s.nodes[to as int] == self.nodes@[to as int]@);
            self.nodes[to as usize].handle(self.clock, from, msg);
            let ghost n2 = s.nodes[to as int].handle(s.clock, from, link[0]);
            assert(self@.nodes =~= s.nodes.update(to as int, n2));
            self.collect(to as usize);
            proof {
                assert(self@.nodes =~= s.step().nodes);
                assert(self@.links =~= s.step().links);
                assert(self@ == s.step());
            }
        }
        proof {
            self.history@ = lemma_step_in_time(s, self.history@, base);
        }
        true
    }

    /// True if no messages are in flight.
    pub fn idle(&self) -> (b: bool)
        requires
            self.wf(),
        ensures
            b == self@.idle(),
    {
        proof {
            lemma_inactive_is_idle(self@, self.history@);
        }
        self.active().len() == 0
    }
}

/// Steps after steps are steps.
proof fn lemma_steps_add(s: SimView, a: nat, b: nat)
    ensures
        s.steps(a + b) == s.steps(a).steps(b),
    decreases a,
{
    if a > 0 {
        lemma_steps_add(s.step(), (a - 1) as nat, b);
        assert((a + b - 1) as nat == (a - 1) as nat + b);
    }
}

/// An idle simulation has no steps to take.
proof fn lemma_steps_idle(s: SimView, k: nat)
    requires
        s.active().len() == 0,
    ensures
        s.steps(k) == s,
    decreases k,
{
    if k > 0 {
        lemma_steps_idle(s, (k - 1) as nat);
    }
}

/// Steps leave the clock, the dead and the policy alone.
proof fn lemma_steps_frame(s: SimView, k: nat)
    ensures
        s.steps(k).clock == s.clock,
        s.steps(k).dead == s.dead,
        s.steps(k).policy == s.policy,
    decreases k,
{
    if k > 0 {
        lemma_steps_frame(s.step(), (k - 1) as nat);
    }
}

/// **A simulation settles**: delivering as many messages as the load allows
/// leaves nothing under way.
pub proof fn law_simulation_settles(s: SimView, h: Seq<Event>)
    requires
        s.led_to_by(h),
    ensures
        s.settle().idle(),
{
    lemma_settles_within(s, h, s.cluster().load());
}

proof fn lemma_settles_within(s: SimView, h: Seq<Event>, k: nat)
    requires
        s.led_to_by(h),
        s.cluster().load() <= k,
    ensures
        s.steps(k).idle(),
    decreases k,
{
    lemma_inactive_is_idle(s, h);
    if s.active().len() == 0 {
        lemma_steps_idle(s, k);
    } else {
        let h2 = lemma_step_led(s, h);
        lemma_settles_within(s.step(), h2, (k - 1) as nat);
    }
}

/// `h2` goes on from `h`, and loses nothing if there are no dead nodes.
pub open spec fn goes_on(h: Seq<Event>, h2: Seq<Event>, dead: Set<NodeId>) -> bool {
    &&& h.len() <= h2.len()
    &&& h2.take(h.len() as int) == h
    &&& dead.is_empty() ==> forall|i: int| h.len() <= i < h2.len() ==> !(#[trigger] h2[i] is Lose)
}

/// Going on and on is going on.
proof fn lemma_goes_on(h: Seq<Event>, h1: Seq<Event>, h2: Seq<Event>, dead: Set<NodeId>)
    requires
        goes_on(h, h1, dead),
        goes_on(h1, h2, dead),
    ensures
        goes_on(h, h2, dead),
{
    assert(h2.take(h.len() as int) =~= h2.take(h1.len() as int).take(h.len() as int));
    if dead.is_empty() {
        assert forall|i: int| h.len() <= i < h2.len() implies !(#[trigger] h2[i] is Lose) by {
            if i < h1.len() {
                assert(h2[i] == h2.take(h1.len() as int)[i]);
                assert(!(h1[i] is Lose));
            }
        }
    }
}

/// One more event that is no loss goes on.
proof fn lemma_continues_goes_on(h: Seq<Event>, h2: Seq<Event>, e: Event, dead: Set<NodeId>)
    requires
        continues(h, h2, e, dead),
        !(e is Lose),
    ensures
        goes_on(h, h2, dead),
{
    assert(h2.take(h.len() as int) =~= h2.take(h.len() as int + 1).take(h.len() as int));
    assert(h.push(e).take(h.len() as int) =~= h);
}

impl Sim {
    /// Deliver everything in flight, answers too.
    #[verifier::spinoff_prover]
    #[verifier::rlimit(50)]
    fn settle(&mut self, Ghost(base): Ghost<Instant>)
        requires
            old(self).led(),
            old(self).in_time(base, old(self)@.nodes.len()),
            old(self)@.clock + LEASE <= u64::MAX,
        ensures
            final(self).led(),
            final(self).in_time(base, old(self)@.nodes.len()),
            final(self)@ == old(self)@.settle(),
            final(self)@.nodes.len() == old(self)@.nodes.len(),
            final(self)@.idle(),
            old(self).leases_held() ==> final(self).leases_held(),
            goes_on(old(self).history(), final(self).history(), old(self)@.dead),
    {
        let ghost s = self@;
        let ghost h = self.history@;
        let ghost mut k: nat = 0;
        let mut more = true;
        assert(h.take(h.len() as int) =~= h);
        while more
            invariant
                self.led(),
                self.in_time(base, s.nodes.len()),
                self@.nodes.len() == s.nodes.len(),
                s.clock + LEASE <= u64::MAX,
                s == old(self)@,
                h == old(self).history@,
                old(self).led(),
                self@ == s.steps(k),
                k + self@.cluster().load() <= s.cluster().load(),
                !more ==> self@.idle(),
                old(self).leases_held() ==> self.leases_held(),
                goes_on(h, self.history@, s.dead),
            decreases self@.cluster().load() + if more {
                1int
            } else {
                0
            },
        {
            let ghost before = self@;
            let ghost h1 = self.history@;
            proof {
                lemma_steps_frame(s, k);
            }
            more = self.deliver(Ghost(base));
            proof {
                lemma_inactive_is_idle(before, h1);
                if more {
                    lemma_steps_add(s, k, 1);
                    assert(before.steps(1) == before.step()) by {
                        reveal_with_fuel(SimView::steps, 2);
                    }
                    k = k + 1;
                    lemma_continues_goes_on(h1, self.history@, before.next_delivery(), s.dead);
                    lemma_goes_on(h, h1, self.history@, s.dead);
                }
            }
        }
        proof {
            lemma_inactive_is_idle(self@, self.history@);
            let rest = (s.cluster().load() - k) as nat;
            lemma_steps_add(s, k, rest);
            lemma_steps_idle(self@, rest);
        }
    }
}

/// The simulation at another time.
pub proof fn lemma_clock_led(s: SimView, h: Seq<Event>, clock: Instant)
    requires
        s.led_to_by(h),
    ensures
        (SimView { clock, ..s }).led_to_by(h),
{
    let t = SimView { clock, ..s };
    assert(t.cluster() == s.cluster());
}

/// Ticking leaves the clock and the dead alone.
proof fn lemma_tick_all_frame(s: SimView, k: nat)
    requires
        k <= s.nodes.len() <= u32::MAX,
    ensures
        s.tick_all(k).clock == s.clock,
        s.tick_all(k).dead == s.dead,
        s.tick_all(k).policy == s.policy,
        s.tick_all(k).nodes.len() == s.nodes.len(),
    decreases k,
{
    if k > 0 {
        lemma_tick_all_frame(s, (k - 1) as nat);
    }
}

impl Sim {
    /// Move the clock of node `id` on, if it is alive.
    fn tick_one(&mut self, id: usize, Ghost(base): Ghost<Instant>)
        requires
            old(self).led(),
            old(self).in_time(base, id as nat),
            id < old(self)@.nodes.len(),
            old(self)@.clock + LEASE <= u64::MAX,
        ensures
            final(self).led(),
            final(self).in_time(base, (id + 1) as nat),
            final(self)@ == if old(self)@.dead.contains(id as NodeId) {
                old(self)@
            } else {
                old(self)@.collect(
                    id as NodeId,
                    old(self)@.nodes[id as int].tick(old(self)@.clock),
                )
            },
            goes_on(old(self).history(), final(self).history(), old(self)@.dead),
    {
        let ghost s = self@;
        let ghost h = self.history@;
        let ghost n = s.nodes[id as int];
        let ghost p = id as NodeId;
        assert(h.take(h.len() as int) =~= h);
        if self.dead[id] {
            proof {
                lemma_timely_skip(s.cluster(), p, base as int, s.clock as int, s.live());
            }
            return ;
        }
        assert(n == self.nodes@[id as int]@);
        self.nodes[id].tick(self.clock);
        assert(self@.nodes =~= s.nodes.update(id as int, n.tick(s.clock)));
        self.collect(id);
        proof {
            assert(self@.nodes =~= s.collect(p, n.tick(s.clock)).nodes);
            assert(self@ == s.collect(p, n.tick(s.clock)));
            let h2 = lemma_tick_led(s, h, p);
            let e = Event::Tick { node: p, now: s.clock };
            lemma_continues_goes_on(h, h2, e, s.dead);
            lemma_led_sane(s, h);
            let b = base as int;
            lemma_timely_tick_spares(s.cluster(), b, s.clock, p as int, s.live(), p);
            lemma_timely_tick(s.cluster(), p, b, s.clock, s.live());
            lemma_in_time_next(s, h, self@, h2, e, base, id as nat, (id + 1) as nat);
            self.history@ = h2;
        }
    }

    /// Move time on to `clock` and deliver everything this has sent.
    #[verifier::spinoff_prover]
    #[verifier::rlimit(50)]
    fn elapse(&mut self, clock: Instant)
        requires
            old(self).wf(),
            old(self)@.clock <= clock <= old(self)@.clock + RENEW_INTERVAL,
            clock + LEASE <= u64::MAX,
        ensures
            final(self).wf(),
            final(self)@ == old(self)@.elapse(clock),
            final(self)@.clock == clock,
            final(self)@.dead == old(self)@.dead,
            goes_on(old(self).history(), final(self).history(), old(self)@.dead),
    {
        let ghost h = self.history@;
        proof {
            lemma_clock_led(self@, h, clock);
            assert(h.take(h.len() as int) =~= h);
        }
        let ghost base = self.clock;
        self.clock = clock;
        let ghost s = self@;
        let n = self.nodes.len();
        let mut id: usize = 0;
        assert(s == SimView { clock, ..old(self)@ });
        proof {
            assert(s.cluster() == old(self)@.cluster());
            lemma_timely_later(s.cluster(), base as int, clock as int, n as int, s.live());
        }
        while id < n
            invariant
                self.led(),
                self.in_time(base, id as nat),
                n == s.nodes.len(),
                n <= u32::MAX,
                id <= n,
                s.clock == clock,
                clock + LEASE <= u64::MAX,
                self@ == s.tick_all(id as nat),
                goes_on(h, self.history@, s.dead),
            decreases n - id,
        {
            let ghost h1 = self.history@;
            proof {
                lemma_tick_all_frame(s, id as nat);
            }
            self.tick_one(id, Ghost(base));
            id += 1;
            proof {
                lemma_goes_on(h, h1, self.history@, s.dead);
            }
        }
        let ghost h1 = self.history@;
        proof {
            lemma_tick_all_frame(s, n as nat);
        }
        self.settle(Ghost(base));
        proof {
            lemma_goes_on(h, h1, self.history@, s.dead);
            lemma_steps_frame(s.tick_all(n as nat), s.tick_all(n as nat).cluster().load());
            lemma_rested(self@, self.history@, base);
        }
    }

    /// Advance logical time by `dt`, in sub-lease increments so that live nodes
    /// get to renew (and have those renewals delivered) before any lease lapses.
    /// Only a node that has stopped ticking, that is, one that has crashed, loses
    /// its votes. After each increment all pending messages are delivered.
    pub fn advance(&mut self, dt: Instant)
        requires
            old(self).wf(),
            old(self)@.clock + dt + LEASE <= u64::MAX,
        ensures
            final(self).wf(),
            final(self)@ == old(self)@.advance_to(
                old(self)@.clock,
                (old(self)@.clock + dt) as u64,
            ),
            goes_on(old(self).history(), final(self).history(), old(self)@.dead),
            final(self)@.spares(final(self).history(), final(self)@.live()),
    {
        let target: u64 = self.clock + dt;
        let ghost s = self@;
        let ghost h = self.history@;
        assert(h.take(h.len() as int) =~= h);
        while self.clock < target
            invariant
                self.wf(),
                target + LEASE <= u64::MAX,
                s.clock <= self@.clock <= target,
                self@.dead == s.dead,
                self@.advance_to(self@.clock, target) == s.advance_to(s.clock, target),
                goes_on(h, self.history@, s.dead),
            decreases target - self@.clock,
        {
            let ghost h1 = self.history@;
            let next: u64 = if RENEW_INTERVAL < target - self.clock {
                self.clock + RENEW_INTERVAL
            } else {
                target
            };
            self.elapse(next);
            proof {
                lemma_goes_on(h, h1, self.history@, s.dead);
            }
        }
    }

    /// Drain locks newly acquired across all nodes since the last call, as
    /// `(node, lock, fence)`.
    pub fn drain_acquired(&mut self) -> (out: Vec<(NodeId, LockId, Fence)>)
        requires
            old(self).wf(),
        ensures
            final(self).wf(),
            final(self)@ == old(self)@.reported(),
            out@.map_values(|r: (NodeId, LockId, Fence)| (r.0, r.1@, r.2)) == old(self)@.reports(
                old(self)@.nodes.len(),
            ),
            final(self).history() == old(self).history(),
    {
        let ghost s = self@;
        let n = self.nodes.len();
        let mut out: Vec<(NodeId, LockId, Fence)> = Vec::new();
        let mut i: usize = 0;
        assert(report_views(out@) =~= s.reports(0));
        while i < n
            invariant
                self.shape(),
                n == self.nodes@.len(),
                n == s.nodes.len(),
                i <= n,
                self@.links == s.links,
                self@.dead == s.dead,
                self@.policy == s.policy,
                self@.clock == s.clock,
                self@.rng == s.rng,
                self.history@ == old(self).history@,
                forall|j: int|
                    0 <= j < n ==> #[trigger] self@.nodes[j] == (if j < i {
                        NodeView { acquired: Seq::empty(), ..s.nodes[j] }
                    } else {
                        s.nodes[j]
                    }),
                report_views(out@) == s.reports(i as nat),
            decreases n - i,
        {
            let ghost before = self@;
            let ghost done = report_views(out@);
            assert(before.nodes[i as int] == self.nodes@[i as int]@);
            let acquired = self.nodes[i].take_acquired();
            let ghost views = acquired_views(acquired@);
            let ghost id = i as NodeId;
            let ghost f = |p: (Seq<char>, Fence)| (id, p.0, p.1);
            proof {
                assert(self@.nodes =~= before.nodes.update(
                    i as int,
                    NodeView { acquired: Seq::empty(), ..s.nodes[i as int] },
                ));
                assert(views == s.nodes[i as int].acquired);
                assert(report_views(out@) =~= done + views.take(0).map_values(f));
            }
            let ghost here = self@;
            for a in it: acquired
                invariant
                    here == self@,
                    id == i,
                    i < n,
                    n <= u32::MAX,
                    it.seq() == acquired@,
                    views == acquired_views(acquired@),
                    f == (|p: (Seq<char>, Fence)| (id, p.0, p.1)),
                    report_views(out@) == done + views.take(it.index() as int).map_values(f),
            {
                let ghost k = it.index() as int;
                let ghost before = report_views(out@);
                let (lock, fence) = a;
                out.push((i as NodeId, lock, fence));
                assert(report_views(out@) =~= before.push((id, lock@, fence)));
                assert(views[k] == (lock@, fence));
                assert(views.take(k + 1).map_values(f) =~= views.take(k).map_values(f).push(
                    f(views[k]),
                ));
                assert(report_views(out@) =~= done + views.take(k + 1).map_values(f));
            }
            proof {
                assert(views.take(views.len() as int) =~= views);
                assert(report_views(out@) =~= s.reports((i + 1) as nat));
            }
            i += 1;
        }
        proof {
            assert(self@.nodes =~= s.reported().nodes);
            assert(self@.cluster().nodes =~= s.cluster().nodes);
            assert(self@.cluster() == s.cluster());
        }
        out
    }
}

/// **Live nodes keep their votes**: whatever is requested and released, whichever
/// nodes crash and however far time is advanced, no vote is ever taken from a node
/// that has not crashed.
pub proof fn law_live_nodes_keep_their_votes(sim: Sim)
    requires
        sim.wf(),
    ensures
        sim@.spares(sim.history(), sim@.live()),
{
}

/// **Leases hold without crashes**: as long as no node of a simulation crashes,
/// no lease lapses.
pub proof fn law_leases_hold_without_crashes(sim: Sim)
    requires
        sim.wf(),
        sim@.dead.is_empty(),
    ensures
        sim.leases_held(),
{
    assert(sim@.live() =~= Set::full());
    lemma_all_spared(sim@.policy, sim.members(), sim.history());
}

/// If no lease on a vote for anybody lapses, no lease lapses.
pub proof fn lemma_all_spared(policy: QuorumPolicy, members: Seq<NodeId>, h: Seq<Event>)
    requires
        spares(policy, members, h, Set::full()),
    ensures
        leases_hold(policy, members, h),
    decreases h.len(),
{
    if h.len() > 0 {
        lemma_all_spared(policy, members, h.drop_last());
    }
}

/// **Mutual exclusion in simulations**: no two nodes that have not crashed hold a
/// lock at once.
pub proof fn law_one_live_holder(sim: Sim, lock: Seq<char>, p: NodeId, q: NodeId)
    requires
        sim.wf(),
        sim@.alive(p),
        sim@.alive(q),
        sim@.nodes[p as int].holds(lock),
        sim@.nodes[q as int].holds(lock),
    ensures
        p == q,
{
    let c = sim@.cluster();
    lemma_members(sim@.nodes.len());
    assert(c.nodes[p] == sim@.nodes[p as int].settled());
    assert(c.nodes[q] == sim@.nodes[q as int].settled());
    law_survivors_exclude_each_other(
        sim@.policy,
        sim.members(),
        sim.history(),
        sim@.live(),
        lock,
        p,
        q,
    );
}

/// **Progress in simulations**: when nothing is under way, no vote of a live node
/// for the lock is left with a crashed one, and each live node can still reach a
/// quorum, then a lock that a live node wants is held by a live node. Without
/// crashes this holds whenever nothing is under way.
pub proof fn law_live_nodes_make_progress(sim: Sim, lock: Seq<char>, p: NodeId) -> (holder: NodeId)
    requires
        sim.wf(),
        sim@.idle(),
        sim@.alive(p),
        sim@.nodes[p as int].request_of(lock) is Some,
        forall|x: NodeId| #[trigger]
            sim@.alive(x) ==> (sim@.nodes[x as int].arbiter_of(lock).voted_for matches Some(r)
                ==> !sim@.dead.contains(r.node)),
        forall|x: NodeId| #[trigger]
            sim@.alive(x) ==> can_reach_quorum(sim@.policy, sim.members(), sim@.live(), x),
    ensures
        sim@.alive(holder),
        sim@.nodes[holder as int].holds(lock),
{
    lemma_live_progress(sim@, sim.history(), lock, p)
}

/// [`law_live_nodes_make_progress`] of what a simulation shows.
pub proof fn lemma_live_progress(s: SimView, h: Seq<Event>, lock: Seq<char>, p: NodeId) -> (holder:
    NodeId)
    requires
        s.led_to_by(h),
        s.in_time(h, s.clock, s.nodes.len()),
        s.idle(),
        s.alive(p),
        s.nodes[p as int].request_of(lock) is Some,
        forall|x: NodeId| #[trigger]
            s.alive(x) ==> (s.nodes[x as int].arbiter_of(lock).voted_for matches Some(r)
                ==> !s.dead.contains(r.node)),
        forall|x: NodeId| #[trigger]
            s.alive(x) ==> can_reach_quorum(s.policy, sim_members(s.nodes.len()), s.live(), x),
    ensures
        s.alive(holder),
        s.nodes[holder as int].holds(lock),
{
    let c = s.cluster();
    let members = sim_members(s.nodes.len());
    lemma_members(s.nodes.len());
    lemma_idle_at_rest(s);
    assert forall|x: NodeId| #[trigger]
        members.contains(x) && s.live().contains(x) implies s.alive(x) && c.nodes[x]
        == s.nodes[x as int].settled() by {}
    assert(c.nodes[p] == s.nodes[p as int].settled());
    let holder = law_survivors_make_progress(s.policy, members, h, s.live(), lock, p);
    assert(members.contains(holder));
    holder
}

/// The contents of a report.
spec fn report_views(out: Seq<(NodeId, LockId, Fence)>) -> Seq<(NodeId, Seq<char>, Fence)> {
    out.map_values(|r: (NodeId, LockId, Fence)| (r.0, r.1@, r.2))
}

/// A generator that is not at zero does not come to zero.
proof fn lemma_xorshift_nonzero(x: u64)
    requires
        x != 0,
    ensures
        xorshift(x) != 0,
{
    let a = x ^ (x << 13);
    let b = a ^ (a >> 7);
    assert(a != 0) by (bit_vector)
        requires
            x != 0,
            a == x ^ (x << 13),
    ;
    assert(b != 0) by (bit_vector)
        requires
            a != 0,
            b == a ^ (a >> 7),
    ;
    assert(b ^ (b << 17) != 0) by (bit_vector)
        requires
            b != 0,
    ;
}

} // verus!
