//! Nobody starves: every request is served in its turn.
//!
//! In a simulation without crashes, let the holder of a lock release it and
//! everything be delivered, again and again: each node that wants the lock comes to
//! hold it, after at most as many rounds as there are others who want it.
use vstd::prelude::*;

use crate::cluster::{lemma_count_positive, Event};
use crate::progress::{lemma_all_reach_quorum, lemma_waits_after};
use crate::sim::{
    law_simulation_settles, lemma_led_sane, lemma_live_progress, lemma_members, lemma_next_link,
    lemma_release_in_time, lemma_step_in_time, sim_members, Sim, SimView,
};
use crate::types::{MessageKind, NodeId, LEASE};

verus! {

impl SimView {
    /// The nodes that want or hold `lock`.
    pub open spec fn wanting(self, lock: Seq<char>) -> Set<NodeId> {
        Set::new(
            |p: NodeId| p < self.nodes.len() && self.nodes[p as int].request_of(lock) is Some,
        )
    }

    /// A live node that holds `lock`.
    pub open spec fn holder(self, lock: Seq<char>) -> NodeId {
        choose|p: NodeId| self.alive(p) && self.nodes[p as int].holds(lock)
    }

    /// The holder of `lock` releases it, and everything is delivered.
    pub open spec fn round(self, lock: Seq<char>) -> SimView {
        self.release(self.holder(lock), lock).settle()
    }

    /// `k` rounds, one after the other.
    pub open spec fn rounds(self, lock: Seq<char>, k: nat) -> SimView
        decreases k,
    {
        if k == 0 {
            self
        } else {
            self.round(lock).rounds(lock, (k - 1) as nat)
        }
    }
}

/// A simulation without crashes, in order and in time.
#[verifier::opaque]
pub open spec fn runs(s: SimView, h: Seq<Event>) -> bool {
    &&& s.led_to_by(h)
    &&& s.in_time(h, s.clock, s.nodes.len())
    &&& s.dead.is_empty()
    &&& s.clock + LEASE <= u64::MAX
}

/// A delivery leaves everybody wanting what they want.
proof fn lemma_step_wanting(s: SimView, h: Seq<Event>, lock: Seq<char>) -> (h2: Seq<Event>)
    requires
        runs(s, h),
    ensures
        runs(s.step(), h2),
        s.step().wanting(lock) == s.wanting(lock),
{
    reveal(runs);
    if s.active().len() == 0 {
        h
    } else {
        let key = s.next_link();
        let (from, to) = key;
        let c = s.cluster();
        lemma_next_link(s, h);
        lemma_led_sane(s, h);
        lemma_members(s.nodes.len());
        lemma_waits_after(s.policy, sim_members(s.nodes.len()), h, s.live());
        let h2 = lemma_step_in_time(s, h, s.clock);
        let t = s.step();
        let m = s.nodes[to as int];
        let msg = s.links[key][0];
        assert(c.link(from, to) == s.links[key]);
        assert(c.waits_well(msg.lock, from, to, s.live().contains(from)));
        assert(c.requester(to, msg.lock) == m.requester.get(msg.lock));
        if msg.kind is Revoked && m.request_of(msg.lock) == Some(msg.req) {
            lemma_count_positive(s.links[key], 0, MessageKind::Revoked, msg.lock, msg.req);
        }
        assert forall|p: NodeId| p < s.nodes.len() implies (#[trigger] t.nodes[p as int].request_of(
            lock,
        ) is Some <==> s.nodes[p as int].request_of(lock) is Some) by {
            if p == to {
                let n = m.handle(s.clock, from, msg);
                assert(t.nodes[p as int].requester == n.requester);
            } else {
                assert(t.nodes[p as int] == s.nodes[p as int]);
            }
        }
        assert(t.wanting(lock) =~= s.wanting(lock));
        h2
    }
}

/// Deliveries leave everybody wanting what they want.
proof fn lemma_steps_wanting(s: SimView, h: Seq<Event>, lock: Seq<char>, k: nat) -> (h2: Seq<Event>)
    requires
        runs(s, h),
    ensures
        runs(s.steps(k), h2),
        s.steps(k).wanting(lock) == s.wanting(lock),
        s.steps(k).nodes.len() == s.nodes.len(),
    decreases k,
{
    reveal(runs);
    if k == 0 {
        h
    } else {
        let h1 = lemma_step_wanting(s, h, lock);
        assert(s.step().nodes.len() == s.nodes.len()) by {
            if s.active().len() > 0 {
                lemma_next_link(s, h);
            }
        }
        lemma_steps_wanting(s.step(), h1, lock, (k - 1) as nat)
    }
}

/// At rest, whatever somebody wants is held.
pub proof fn lemma_held(s: SimView, h: Seq<Event>, lock: Seq<char>, p: NodeId)
    requires
        runs(s, h),
        s.idle(),
        s.wanting(lock).contains(p),
    ensures
        s.alive(s.holder(lock)),
        s.nodes[s.holder(lock) as int].holds(lock),
{
    reveal(runs);
    lemma_members(s.nodes.len());
    assert(s.live() =~= Set::full());
    assert forall|x: NodeId| #[trigger] s.alive(x) implies crate::progress::can_reach_quorum(
        s.policy,
        sim_members(s.nodes.len()),
        s.live(),
        x,
    ) by {
        assert(sim_members(s.nodes.len()).contains(x));
        lemma_all_reach_quorum(s.policy, sim_members(s.nodes.len()), x);
    }
    let q = lemma_live_progress(s, h, lock, p);
    assert(s.alive(q) && s.nodes[q as int].holds(lock));
}

/// A round serves the holder and nobody else.
proof fn lemma_round(s: SimView, h: Seq<Event>, lock: Seq<char>, p: NodeId) -> (h2: Seq<Event>)
    requires
        runs(s, h),
        s.idle(),
        s.wanting(lock).contains(p),
    ensures
        runs(s.round(lock), h2),
        s.round(lock).idle(),
        s.round(lock).nodes.len() == s.nodes.len(),
        s.round(lock).wanting(lock) == s.wanting(lock).remove(s.holder(lock)),
        s.wanting(lock).contains(s.holder(lock)),
{
    reveal(runs);
    let q = s.holder(lock);
    lemma_held(s, h, lock, p);
    let t = s.release(q, lock);
    let h1 = lemma_release_in_time(s, h, q, lock);
    assert(t.wanting(lock) =~= s.wanting(lock).remove(q)) by {
        assert forall|y: NodeId| y < s.nodes.len() && y != q implies #[trigger] t.nodes[y as int]
            == s.nodes[y as int] by {}
    }
    law_simulation_settles(t, h1);
    lemma_steps_wanting(t, h1, lock, t.cluster().load())
}

/// The nodes that want a lock are among finitely many.
proof fn lemma_wanting_finite(s: SimView, lock: Seq<char>)
    requires
        s.nodes.len() <= u32::MAX,
    ensures
        s.wanting(lock).finite(),
{
    let all = sim_members(s.nodes.len());
    lemma_members(s.nodes.len());
    vstd::seq_lib::seq_to_set_is_finite(all);
    assert forall|p: NodeId| #[trigger] s.wanting(lock).contains(p) implies all.to_set().contains(
        p,
    ) by {
        assert(all.contains(p));
    }
    vstd::set_lib::lemma_len_subset(s.wanting(lock), all.to_set());
}

/// [`law_nobody_starves`] of what a simulation shows.
proof fn lemma_served(s: SimView, h: Seq<Event>, lock: Seq<char>, p: NodeId) -> (k: nat)
    requires
        runs(s, h),
        s.idle(),
        s.wanting(lock).contains(p),
        s.wanting(lock).finite(),
    ensures
        k < s.wanting(lock).len(),
        s.rounds(lock, k).nodes[p as int].holds(lock),
    decreases s.wanting(lock).len(),
{
    reveal(runs);
    if s.nodes[p as int].holds(lock) {
        assert(s.wanting(lock).len() > 0) by {
            if s.wanting(lock).len() == 0 {
                assert(s.wanting(lock) =~= Set::empty());
            }
        }
        0
    } else {
        lemma_held(s, h, lock, p);
        let h1 = lemma_round(s, h, lock, p);
        let k = lemma_served(s.round(lock), h1, lock, p);
        assert(s.rounds(lock, k + 1) == s.round(lock).rounds(lock, k));
        k + 1
    }
}

/// **Nobody starves**: when nothing is under way in a simulation without crashes, a
/// node that wants a lock comes to hold it after finitely many rounds in which the
/// holder releases the lock and everything is delivered; there are fewer rounds than
/// nodes that want the lock.
pub proof fn law_nobody_starves(sim: Sim, lock: Seq<char>, p: NodeId) -> (k: nat)
    requires
        sim.wf(),
        sim@.dead.is_empty(),
        sim@.idle(),
        sim@.clock + LEASE <= u64::MAX,
        p < sim@.nodes.len(),
        sim@.nodes[p as int].request_of(lock) is Some,
    ensures
        k < sim@.wanting(lock).len(),
        sim@.rounds(lock, k).nodes[p as int].holds(lock),
{
    reveal(runs);
    sim.lemma_wf_led();
    lemma_wanting_finite(sim@, lock);
    lemma_served(sim@, sim.history(), lock, p)
}

} // verus!
