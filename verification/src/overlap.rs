//! Composites that share a key are never held at once.
use vstd::prelude::*;

use crate::cluster::{after, spares, ClusterView, Event};
use crate::composite::CompositeView;
use crate::exclusion::law_survivors_exclude_each_other;
use crate::quorum::QuorumPolicy;
use crate::reports::{
    lemma_at_start, lemma_exclusive, lemma_hold_at, lemma_run, lemma_told_at, Call,
};
use crate::service::runs;
use crate::sim::{Sim, SimView};
use crate::types::{Fence, NodeId, LEASE};

verus! {

impl ClusterView {
    /// Node `p` holds every key of a composite.
    pub open spec fn holds_composite(self, p: NodeId, c: CompositeView) -> bool {
        forall|k: Seq<char>| #[trigger] c.keys.contains(k) ==> self.holds(p, k)
    }
}

/// **Conflict on overlap.** Of the `live` nodes, those whose leases do not lapse, two that
/// hold composites with a key in common are one: two composites that share a key are
/// never both held.
pub proof fn law_overlapping_composites_conflict(
    policy: QuorumPolicy,
    members: Seq<NodeId>,
    events: Seq<Event>,
    live: Set<NodeId>,
    p: NodeId,
    c: CompositeView,
    q: NodeId,
    d: CompositeView,
    key: Seq<char>,
)
    requires
        members.no_duplicates(),
        spares(policy, members, events, live),
        live.contains(p),
        live.contains(q),
        after(policy, members, events).holds_composite(p, c),
        after(policy, members, events).holds_composite(q, d),
        c.keys.contains(key),
        d.keys.contains(key),
    ensures
        p == q,
{
    law_survivors_exclude_each_other(policy, members, events, live, key, p, q);
}

// ---- composites in simulations ----------------------------------------------------------------
/// A composite of node `p` after it was told what is reported.
pub open spec fn told_all(
    c: CompositeView,
    p: NodeId,
    reports: Seq<(NodeId, Seq<char>, Fence)>,
) -> CompositeView
    decreases reports.len(),
{
    if reports.len() == 0 {
        c
    } else {
        let before = told_all(c, p, reports.drop_last());
        let (node, lock, fence) = reports.last();
        if node == p {
            before.on_acquired(lock, fence)
        } else {
            before
        }
    }
}

impl SimView {
    /// A composite of node `p` after the first `k` calls, told after each of them what was
    /// reported.
    pub open spec fn composite_at(
        self,
        calls: Seq<Call>,
        p: NodeId,
        c: CompositeView,
        k: nat,
    ) -> CompositeView
        decreases k,
    {
        if k == 0 {
            c
        } else {
            told_all(self.composite_at(calls, p, c, (k - 1) as nat), p, self.told(calls, k - 1))
        }
    }
}

/// Node `p` does not release a key of the composite in the first `k` calls.
pub open spec fn keeps_its_keys(calls: Seq<Call>, p: NodeId, c: CompositeView, k: nat) -> bool {
    forall|i: int|
        0 <= i < k ==> (#[trigger] calls[i] matches Call::Release { node, lock } ==> !(node == p
            && c.keys.contains(lock)))
}

/// Whatever a composite is told, its keys stay; and what it has it had, or was told of.
proof fn lemma_told_all(
    c: CompositeView,
    p: NodeId,
    reports: Seq<(NodeId, Seq<char>, Fence)>,
    key: Seq<char>,
)
    requires
        c.fences.len() <= c.keys.len(),
    ensures
        ({
            let d = told_all(c, p, reports);
            &&& d.keys == c.keys
            &&& d.fences.len() <= d.keys.len()
            &&& d.has(key) ==> c.has(key) || exists|f: Fence| #[trigger]
                reports.contains((p, key, f))
        }),
    decreases reports.len(),
{
    if reports.len() > 0 {
        let rest = reports.drop_last();
        lemma_told_all(c, p, rest, key);
        let before = told_all(c, p, rest);
        let d = told_all(c, p, reports);
        let (node, lock, fence) = reports.last();
        if d.has(key) && !c.has(key) {
            if before.has(key) {
                let f = choose|f: Fence| #[trigger] rest.contains((p, key, f));
                let i = rest.index_of((p, key, f));
                assert(reports[i] == (p, key, f));
                assert(reports.contains((p, key, f)));
            } else {
                let n = before.fences.len() as int;
                assert(d.keys.take(n + 1) =~= before.keys.take(n).push(before.keys[n]));
                let i = d.keys.take(n + 1).index_of(key);
                assert(i == n) by {
                    if i < n {
                        assert(before.keys.take(n)[i] == key);
                    }
                }
                assert(reports[reports.len() - 1] == (p, key, fence));
                assert(reports.contains((p, key, fence)));
            }
        }
    }
}

/// What a composite has, its node holds.
proof fn lemma_has_is_held(
    s: SimView,
    h: Seq<Event>,
    calls: Seq<Call>,
    p: NodeId,
    c: CompositeView,
    k: nat,
    key: Seq<char>,
)
    requires
        runs(s, h),
        s.drained(),
        s.plays(calls),
        k <= calls.len(),
        c.wf(),
        c.fences.len() == 0,
        keeps_its_keys(calls, p, c, k),
    ensures
        s.composite_at(calls, p, c, k).keys == c.keys,
        s.composite_at(calls, p, c, k).fences.len() <= c.keys.len(),
        s.composite_at(calls, p, c, k).has(key) ==> p < s.nodes.len() && s.at(
            calls,
            k,
        ).nodes[p as int].holds(key),
    decreases k,
{
    lemma_at_start(s, calls);
    if k == 0 {
        assert(c.keys.take(0) =~= Seq::empty());
    } else {
        let j = (k - 1) as nat;
        lemma_has_is_held(s, h, calls, p, c, j, key);
        let before = s.composite_at(calls, p, c, j);
        let told = s.told(calls, j as int);
        lemma_told_all(before, p, told, key);
        let h1 = lemma_run(s, calls, 0, h, j);
        let d = told_all(before, p, told);
        if d.has(key) {
            if before.has(key) {
                assert(c.keys.contains(key)) by {
                    let t = before.keys.take(before.fences.len() as int);
                    assert(c.keys[t.index_of(key)] == key);
                }
                let r = s.at(calls, j).nodes[p as int].requester.map[key].req;
                let _ = lemma_hold_at(s, calls, j, h1, key, p, r);
            } else {
                let f = choose|f: Fence| #[trigger] told.contains((p, key, f));
                let _ = lemma_told_at(s, calls, j, h1, p, key, f);
            }
        }
    }
}

/// **Overlapping composites in simulations.** In a simulation without crashes, let each of
/// two nodes take a composite: tell it every acquisition that is reported, and release
/// none of its keys. If the composites share a key, they are never both held.
pub proof fn law_overlapping_composites_are_never_both_held(
    sim: Sim,
    calls: Seq<Call>,
    k: nat,
    p: NodeId,
    c: CompositeView,
    q: NodeId,
    d: CompositeView,
    key: Seq<char>,
)
    requires
        sim.wf(),
        sim@.dead.is_empty(),
        sim@.clock + LEASE <= u64::MAX,
        sim@.drained(),
        sim@.plays(calls),
        k <= calls.len(),
        c.wf(),
        d.wf(),
        c.fences.len() == 0,
        d.fences.len() == 0,
        keeps_its_keys(calls, p, c, k),
        keeps_its_keys(calls, q, d, k),
        c.keys.contains(key),
        d.keys.contains(key),
        p != q,
    ensures
        !(sim@.composite_at(calls, p, c, k).is_held() && sim@.composite_at(
            calls,
            q,
            d,
            k,
        ).is_held()),
{
    let s = sim@;
    let h = sim.history();
    assert(runs(s, h)) by {
        reveal(runs);
        sim.lemma_wf_led();
    }
    lemma_has_is_held(s, h, calls, p, c, k, key);
    lemma_has_is_held(s, h, calls, q, d, k, key);
    let e = s.composite_at(calls, p, c, k);
    let f = s.composite_at(calls, q, d, k);
    if e.is_held() && f.is_held() {
        assert(e.keys.take(e.fences.len() as int) =~= c.keys);
        assert(f.keys.take(f.fences.len() as int) =~= d.keys);
        lemma_at_start(s, calls);
        let h1 = lemma_run(s, calls, 0, h, k);
        lemma_exclusive(s.at(calls, k), h1, key, p, q);
    }
}

} // verus!
