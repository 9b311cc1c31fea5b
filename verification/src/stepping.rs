//! What the steps of a simulation do: its calls, its deliveries and the passing of its time.
use vstd::prelude::*;

use crate::cluster::sent_to;
use crate::model::NodeView;
use crate::quorum::QuorumPolicy;
use crate::sim::{sim_members, usable_seed, xorshift, SimView};
use crate::types::{Instant, NodeId, OutgoingView};

verus! {

/// **A new simulation** has so many nodes, with the numbers from zero on, which know each
/// other and nothing else; nothing is under way, nobody has crashed, and it is time zero.
pub proof fn law_new_simulations(n: nat, seed: u64, policy: QuorumPolicy, i: int, k: (NodeId, NodeId))
    requires
        0 <= i < n <= u32::MAX,
    ensures
        ({
            let s = SimView::start(n, seed, policy);
            &&& s.nodes.len() == n
            &&& s.nodes[i].id == i
            &&& s.nodes[i].policy == policy
            &&& s.nodes[i].members.len() == n
            &&& s.nodes[i].members[i] == i
            &&& s.nodes[i].outbox.len() == 0 && s.nodes[i].acquired.len() == 0
            &&& s.nodes[i].arbiter.keys.len() == 0 && s.nodes[i].requester.keys.len() == 0
            &&& s.links[k].len() == 0
            &&& s.idle()
            &&& s.dead == Set::<NodeId>::empty()
            &&& s.clock == 0
            &&& s.policy == policy
            &&& seed != 0 ==> s.rng == seed
            &&& seed == 0 ==> s.rng == 0x1234_5678_9ABC_DEF1
        }),
{
}

/// **The generator** shifts and mixes, and never gets stuck at zero.
pub proof fn law_generator(x: u64)
    ensures
        xorshift(x) == ({
            let a = x ^ (x << 13);
            let b = a ^ (a >> 7);
            b ^ (b << 17)
        }),
        x != 0 ==> xorshift(x) != 0,
        usable_seed(x) != 0,
{
    let a = x ^ (x << 13);
    let b = a ^ (a >> 7);
    assert(x != 0 ==> x ^ (x << 13) != 0) by (bit_vector);
    assert(a != 0 ==> a ^ (a >> 7) != 0) by (bit_vector);
    assert(b != 0 ==> b ^ (b << 17) != 0) by (bit_vector);
}

/// The node has become `n`, and what it says to live nodes is under way.
pub open spec fn becomes(s: SimView, t: SimView, p: NodeId, n: NodeView) -> bool {
    &&& t.clock == s.clock && t.dead == s.dead && t.policy == s.policy
    &&& t.nodes == s.nodes.update(p as int, NodeView { outbox: Seq::empty(), ..n })
    &&& forall|k: (NodeId, NodeId)|
        #![trigger t.links[k]]
        if k.0 == p && k.1 < s.nodes.len() && !s.dead.contains(k.1) {
            t.links[k] == s.links[k] + sent_to(n.outbox, k.1)
        } else {
            t.links[k] == s.links[k]
        }
}

/// **Calls go to live nodes.** A request and a release are the node's own, at the time that it
/// is; its messages go to the ends of the links to live nodes. A node that has crashed, or
/// does not exist, does nothing.
pub proof fn law_calls_go_to_live_nodes(s: SimView, node: NodeId, lock: Seq<char>)
    ensures
        node < s.nodes.len() && !s.dead.contains(node) ==> {
            &&& becomes(s, s.request(node, lock), node, s.nodes[node as int].request(s.clock, lock))
            &&& becomes(s, s.release(node, lock), node, s.nodes[node as int].release(lock))
            &&& s.request(node, lock).rng == s.rng && s.release(node, lock).rng == s.rng
        },
        node >= s.nodes.len() || s.dead.contains(node) ==> s.request(node, lock) == s && s.release(
            node,
            lock,
        ) == s,
{
}

/// **A crash takes everything under way with it**: whatever was sent to the node or by it is
/// lost, and nothing else is.
pub proof fn law_crashes_lose_what_is_under_way(s: SimView, node: NodeId, k: (NodeId, NodeId))
    ensures
        node < s.nodes.len() ==> {
            let t = s.crash(node);
            &&& t.dead == s.dead.insert(node)
            &&& k.0 == node || k.1 == node ==> t.links[k].len() == 0
            &&& k.0 != node && k.1 != node ==> t.links[k] == s.links[k]
            &&& t.nodes == s.nodes && t.clock == s.clock && t.rng == s.rng
        },
        node >= s.nodes.len() ==> s.crash(node) == s,
{
}

/// One pair comes before another.
pub open spec fn pair_before(a: (NodeId, NodeId), b: (NodeId, NodeId)) -> bool {
    a.0 < b.0 || (a.0 == b.0 && a.1 < b.1)
}

/// The links of one node.
proof fn lemma_row(s: SimView, p: NodeId, k: nat)
    requires
        k <= s.nodes.len() <= u32::MAX,
    ensures
        forall|x: (NodeId, NodeId)| #[trigger]
            s.active_row(p, k).contains(x) <==> x.0 == p && x.1 < k && s.links[x].len() > 0,
        forall|i: int, j: int|
            #![trigger s.active_row(p, k)[i], s.active_row(p, k)[j]]
            0 <= i < j < s.active_row(p, k).len() ==> pair_before(
                s.active_row(p, k)[i],
                s.active_row(p, k)[j],
            ),
    decreases k,
{
    let row = s.active_row(p, k);
    if k > 0 {
        lemma_row(s, p, (k - 1) as nat);
        let rest = s.active_row(p, (k - 1) as nat);
        let last = (p, (k - 1) as NodeId);
        assert forall|x: (NodeId, NodeId)| #[trigger] row.contains(x) <==> x.0 == p && x.1 < k
            && s.links[x].len() > 0 by {
            if rest.contains(x) {
                let i = rest.index_of(x);
                assert(row[i] == x);
            }
            if x == last && s.links[x].len() > 0 {
                assert(row[rest.len() as int] == x);
            }
            if row.contains(x) {
                let i = row.index_of(x);
                if i < rest.len() {
                    assert(rest[i] == x);
                    assert(rest.contains(x));
                }
            }
            if x.0 == p && x.1 == k - 1 {
                assert(x == last);
            }
        }
        assert forall|i: int, j: int|
            #![trigger row[i], row[j]]
            0 <= i < j < row.len() implies pair_before(row[i], row[j]) by {
            assert(rest[i] == row[i]);
            assert(rest.contains(rest[i]));
            if j < rest.len() {
                assert(rest[j] == row[j]);
            }
        }
    }
}

/// The links of the first nodes.
proof fn lemma_rows(s: SimView, k: nat)
    requires
        k <= s.nodes.len() <= u32::MAX,
    ensures
        forall|x: (NodeId, NodeId)| #[trigger]
            s.active_rows(k).contains(x) <==> x.0 < k && x.1 < s.nodes.len() && s.links[x].len()
                > 0,
        forall|i: int, j: int|
            #![trigger s.active_rows(k)[i], s.active_rows(k)[j]]
            0 <= i < j < s.active_rows(k).len() ==> pair_before(
                s.active_rows(k)[i],
                s.active_rows(k)[j],
            ),
    decreases k,
{
    let all = s.active_rows(k);
    if k > 0 {
        let p = (k - 1) as NodeId;
        lemma_rows(s, (k - 1) as nat);
        lemma_row(s, p, s.nodes.len());
        let a = s.active_rows((k - 1) as nat);
        let b = s.active_row(p, s.nodes.len());
        assert forall|x: (NodeId, NodeId)| #[trigger] all.contains(x) <==> x.0 < k && x.1
            < s.nodes.len() && s.links[x].len() > 0 by {
            if a.contains(x) {
                let i = a.index_of(x);
                assert(all[i] == x);
            }
            if b.contains(x) {
                let i = b.index_of(x);
                assert(all[a.len() + i] == x);
            }
            if all.contains(x) {
                let i = all.index_of(x);
                if i < a.len() {
                    assert(a[i] == x);
                    assert(a.contains(x));
                } else {
                    assert(b[i - a.len()] == x);
                    assert(b.contains(x));
                }
            }
        }
        assert forall|i: int, j: int|
            #![trigger all[i], all[j]]
            0 <= i < j < all.len() implies pair_before(all[i], all[j]) by {
            if i < a.len() {
                assert(a[i] == all[i]);
                assert(a.contains(a[i]));
                if j < a.len() {
                    assert(a[j] == all[j]);
                } else {
                    assert(b[j - a.len()] == all[j]);
                    assert(b.contains(b[j - a.len()]));
                }
            } else {
                assert(b[i - a.len()] == all[i]);
                assert(b[j - a.len()] == all[j]);
            }
        }
    }
}

/// **The generator picks among all links with something under way**, which stand in the order
/// of their senders and receivers. With every delivery it moves on by one.
pub proof fn law_deliveries_are_picked(s: SimView, x: (NodeId, NodeId))
    requires
        s.nodes.len() <= u32::MAX,
    ensures
        s.active().contains(x) <==> x.0 < s.nodes.len() && x.1 < s.nodes.len() && s.links[x].len()
            > 0,
        forall|i: int, j: int|
            #![trigger s.active()[i], s.active()[j]]
            0 <= i < j < s.active().len() ==> pair_before(s.active()[i], s.active()[j]),
        s.active().len() > 0 ==> s.next_link() == s.active()[xorshift(s.rng) as int
            % s.active().len() as int] && s.step().rng == xorshift(s.rng),
        s.active().len() == 0 ==> s.step() == s,
{
    lemma_rows(s, s.nodes.len());
}

/// **Time passes for every live node.** Each ticks once, at the same time; what it then says
/// to live nodes is under way. For a node that has crashed no time passes.
pub proof fn law_time_passes_for_live_nodes(s: SimView, k: nat, i: NodeId, j: NodeId)
    requires
        k <= s.nodes.len() <= u32::MAX,
        i < s.nodes.len(),
    ensures
        ({
            let t = s.tick_all(k);
            let ticked = s.nodes[i as int].tick(s.clock);
            &&& t.clock == s.clock && t.dead == s.dead && t.nodes.len() == s.nodes.len()
            &&& i < k && !s.dead.contains(i) ==> t.nodes[i as int] == (NodeView {
                outbox: Seq::empty(),
                ..ticked
            })
            &&& i >= k || s.dead.contains(i) ==> t.nodes[i as int] == s.nodes[i as int]
            &&& i < k && !s.dead.contains(i) && j < s.nodes.len() && !s.dead.contains(j)
                ==> t.links[(i, j)] == s.links[(i, j)] + sent_to(ticked.outbox, j)
            &&& i >= k || s.dead.contains(i) || s.dead.contains(j) ==> t.links[(i, j)]
                == s.links[(i, j)]
        }),
    decreases k,
{
    if k > 0 {
        law_time_passes_for_live_nodes(s, (k - 1) as nat, i, j);
        let id = (k - 1) as NodeId;
        law_time_passes_for_live_nodes(s, (k - 1) as nat, id, j);
    }
}

/// **Time moves on in steps of at most two thousand units**, so that leases are renewed on the
/// way; after each step everything that it has sent is delivered.
pub proof fn law_time_moves_on_in_steps(s: SimView, clock: Instant, target: Instant)
    ensures
        clock >= target ==> s.advance_to(clock, target) == s,
        clock < target && target - clock <= 2_000 ==> s.advance_to(clock, target) == s.elapse(
            target,
        ),
        target - clock > 2_000 ==> s.advance_to(clock, target) == s.elapse(
            (clock + 2_000) as Instant,
        ).advance_to((clock + 2_000) as Instant, target),
        s.elapse(target) == (SimView { clock: target, ..s }).tick_all(s.nodes.len()).settle(),
{
    reveal_with_fuel(SimView::advance_to, 2);
}

/// **Reports come node by node**, and for each node in the order in which it acquired.
pub proof fn law_reports_come_node_by_node(s: SimView, k: nat)
    requires
        k < s.nodes.len() <= u32::MAX,
    ensures
        s.reports(0).len() == 0,
        s.reports(k + 1).len() == s.reports(k).len() + s.nodes[k as int].acquired.len(),
        forall|i: int|
            0 <= i < s.reports(k).len() ==> #[trigger] s.reports(k + 1)[i] == s.reports(k)[i],
        forall|i: int|
            0 <= i < s.nodes[k as int].acquired.len() ==> #[trigger] s.reports(k + 1)[s.reports(
                k,
            ).len() + i] == (
                k as NodeId,
                s.nodes[k as int].acquired[i].0,
                s.nodes[k as int].acquired[i].1,
            ),
        s.reported().nodes.len() == s.nodes.len(),
        s.reported().nodes[k as int] == (NodeView {
            acquired: Seq::empty(),
            ..s.nodes[k as int]
        }),
        s.reported().links == s.links && s.reported().clock == s.clock && s.reported().dead
            == s.dead,
{
    reveal_with_fuel(SimView::reports, 2);
}

/// **What is sent to a node** is what is addressed to it, in order.
pub proof fn law_what_is_sent_to_a_node(out: Seq<OutgoingView>, x: OutgoingView, to: NodeId)
    ensures
        sent_to(Seq::empty(), to).len() == 0,
        x.to == to ==> sent_to(out.push(x), to) == sent_to(out, to).push(x.msg),
        x.to != to ==> sent_to(out.push(x), to) == sent_to(out, to),
{
    assert(out.push(x).drop_last() =~= out);
}

/// **The members** are the numbers from zero on.
pub proof fn law_members_are_numbered(n: nat, i: int)
    requires
        0 <= i < n <= u32::MAX,
    ensures
        sim_members(n).len() == n,
        sim_members(n)[i] == i,
{
}

} // verus!
