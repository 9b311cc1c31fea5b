//! Deliveries come to an end.
//!
//! Every message has a weight, greater than that of everything its arrival can
//! have sent. So each delivery makes the load of the cluster lighter, and a
//! cluster that is left alone comes to rest.
use vstd::prelude::*;

use crate::cluster::{lemma_sane_with_link, sent_to, ClusterView, Event};
use crate::model::{lemma_vote_added, NodeView};
use crate::quorum::{lemma_grid_members, quorum_targets, QuorumPolicy};
use crate::types::{Instant, MessageKind, MessageView, NodeId, OutgoingView};

verus! {

/// The weight of a message in a cluster of `n` nodes.
pub open spec fn weight(kind: MessageKind, n: nat) -> nat {
    match kind {
        MessageKind::Confirm => 1,
        MessageKind::Grant => n + 1,
        MessageKind::Yield => n + 2,
        MessageKind::Release => n + 2,
        MessageKind::Inquire => n + 3,
        MessageKind::Request => n + 4,
        MessageKind::Revoked => n * (n + 2) + 1,
        MessageKind::Renew => n * (n + 2) + 2,
    }
}

/// The weight of the messages on a link.
pub open spec fn link_load(s: Seq<MessageView>, n: nat) -> nat
    decreases s.len(),
{
    if s.len() == 0 {
        0
    } else {
        link_load(s.drop_last(), n) + weight(s.last().kind, n)
    }
}

/// The weight of outgoing messages.
pub open spec fn out_load(out: Seq<OutgoingView>, n: nat) -> nat
    decreases out.len(),
{
    if out.len() == 0 {
        0
    } else {
        out_load(out.drop_last(), n) + weight(out.last().msg.kind, n)
    }
}

impl ClusterView {
    /// The weight of what is under way from `s` to the first `k` members.
    pub open spec fn row_load(self, s: NodeId, k: nat) -> nat
        decreases k,
    {
        if k == 0 {
            0
        } else {
            self.row_load(s, (k - 1) as nat) + link_load(
                self.link(s, self.members[k - 1]),
                self.members.len(),
            )
        }
    }

    /// The weight of what is under way from the first `k` members.
    pub open spec fn rows_load(self, k: nat) -> nat
        decreases k,
    {
        if k == 0 {
            0
        } else {
            self.rows_load((k - 1) as nat) + self.row_load(
                self.members[k - 1],
                self.members.len(),
            )
        }
    }

    /// The weight of everything under way.
    pub open spec fn load(self) -> nat {
        self.rows_load(self.members.len())
    }
}

proof fn lemma_link_load_append(a: Seq<MessageView>, b: Seq<MessageView>, n: nat)
    ensures
        link_load(a + b, n) == link_load(a, n) + link_load(b, n),
    decreases b.len(),
{
    if b.len() == 0 {
        assert(a + b =~= a);
    } else {
        assert((a + b).drop_last() =~= a + b.drop_last());
        lemma_link_load_append(a, b.drop_last(), n);
    }
}

proof fn lemma_link_load_tail(s: Seq<MessageView>, n: nat)
    requires
        s.len() > 0,
    ensures
        link_load(s, n) == weight(s[0].kind, n) + link_load(s.remove(0), n),
{
    lemma_link_load_append(seq![s[0]], s.remove(0), n);
    assert(seq![s[0]] + s.remove(0) =~= s);
    let one = seq![s[0]];
    assert(one.drop_last() =~= Seq::empty());
    assert(one.last() == s[0]);
    assert(link_load(one.drop_last(), n) == 0);
}

/// Rows whose links are the same weigh the same.
proof fn lemma_row_same(c: ClusterView, d: ClusterView, s: NodeId, k: nat)
    requires
        c.members == d.members,
        k <= c.members.len(),
        forall|j: int|
            0 <= j < k ==> c.link(s, #[trigger] c.members[j]) == d.link(s, c.members[j]),
    ensures
        c.row_load(s, k) == d.row_load(s, k),
    decreases k,
{
    if k > 0 {
        lemma_row_same(c, d, s, (k - 1) as nat);
        assert(c.link(s, c.members[k - 1]) == d.link(s, c.members[k - 1]));
    }
}

/// One row changes the whole by what it changes itself.
proof fn lemma_rows_change(c: ClusterView, d: ClusterView, s: NodeId, k: nat)
    requires
        c.members == d.members,
        c.members.no_duplicates(),
        k <= c.members.len(),
        forall|r: NodeId, j: int|
            r != s && 0 <= j < c.members.len() ==> c.link(r, #[trigger] c.members[j])
                == #[trigger] d.link(r, c.members[j]),
    ensures
        c.members.take(k as int).contains(s) ==> c.rows_load(k) + d.row_load(s, c.members.len())
            == d.rows_load(k) + c.row_load(s, c.members.len()),
        !c.members.take(k as int).contains(s) ==> c.rows_load(k) == d.rows_load(k),
    decreases k,
{
    if k > 0 {
        let r = c.members[k - 1];
        let t = c.members.take(k as int);
        let u = c.members.take(k - 1);
        lemma_rows_change(c, d, s, (k - 1) as nat);
        assert(t.contains(s) <==> u.contains(s) || r == s) by {
            assert(t =~= u.push(r));
            if u.contains(s) {
                assert(t[u.index_of(s)] == s);
            }
            assert(t[k - 1] == r);
        }
        if r == s {
            assert(!u.contains(s)) by {
                if u.contains(s) {
                    assert(c.members[u.index_of(s)] == c.members[k - 1]);
                }
            }
        } else {
            lemma_row_same(c, d, r, c.members.len());
        }
    }
}

/// One link changes its row by what it changes itself.
proof fn lemma_row_change(c: ClusterView, d: ClusterView, s: NodeId, t: NodeId, k: nat)
    requires
        c.members == d.members,
        c.members.no_duplicates(),
        k <= c.members.len(),
        forall|j: int|
            0 <= j < c.members.len() && c.members[j] != t ==> c.link(s, #[trigger] c.members[j])
                == d.link(s, c.members[j]),
    ensures
        c.members.take(k as int).contains(t) ==> c.row_load(s, k) + link_load(
            d.link(s, t),
            c.members.len(),
        ) == d.row_load(s, k) + link_load(c.link(s, t), c.members.len()),
        !c.members.take(k as int).contains(t) ==> c.row_load(s, k) == d.row_load(s, k),
    decreases k,
{
    if k > 0 {
        let r = c.members[k - 1];
        let a = c.members.take(k as int);
        let b = c.members.take(k - 1);
        lemma_row_change(c, d, s, t, (k - 1) as nat);
        assert(a.contains(t) <==> b.contains(t) || r == t) by {
            assert(a =~= b.push(r));
            if b.contains(t) {
                assert(a[b.index_of(t)] == t);
            }
            assert(a[k - 1] == r);
        }
        if r == t {
            assert(!b.contains(t)) by {
                if b.contains(t) {
                    assert(c.members[b.index_of(t)] == c.members[k - 1]);
                }
            }
        }
    }
}

/// What is sent to the first `k` members, all together.
spec fn sent_load(out: Seq<OutgoingView>, members: Seq<NodeId>, k: nat, n: nat) -> nat
    decreases k,
{
    if k == 0 {
        0
    } else {
        sent_load(out, members, (k - 1) as nat, n) + link_load(sent_to(out, members[k - 1]), n)
    }
}

/// What is sent to distinct members weighs no more than what is sent.
proof fn lemma_sent_load(out: Seq<OutgoingView>, members: Seq<NodeId>, k: nat, n: nat)
    requires
        members.no_duplicates(),
        k <= members.len(),
    ensures
        sent_load(out, members, k, n) <= out_load(out, n),
    decreases out.len(),
{
    if out.len() == 0 {
        lemma_sent_load_empty(out, members, k, n);
    } else {
        let init = out.drop_last();
        lemma_sent_load(init, members, k, n);
        lemma_sent_load_step(out, members, k, n);
    }
}

proof fn lemma_sent_load_empty(out: Seq<OutgoingView>, members: Seq<NodeId>, k: nat, n: nat)
    requires
        out.len() == 0,
    ensures
        sent_load(out, members, k, n) == 0,
    decreases k,
{
    if k > 0 {
        lemma_sent_load_empty(out, members, (k - 1) as nat, n);
    }
}

proof fn lemma_sent_load_step(out: Seq<OutgoingView>, members: Seq<NodeId>, k: nat, n: nat)
    requires
        out.len() > 0,
        members.no_duplicates(),
        k <= members.len(),
    ensures
        sent_load(out, members, k, n) == sent_load(out.drop_last(), members, k, n)
            + if members.take(k as int).contains(out.last().to) {
            weight(out.last().msg.kind, n)
        } else {
            0
        },
    decreases k,
{
    if k > 0 {
        let r = members[k - 1];
        let t = out.last().to;
        let a = members.take(k as int);
        let b = members.take(k - 1);
        lemma_sent_load_step(out, members, (k - 1) as nat, n);
        assert(a.contains(t) <==> b.contains(t) || r == t) by {
            assert(a =~= b.push(r));
            if b.contains(t) {
                assert(a[b.index_of(t)] == t);
            }
            assert(a[k - 1] == r);
        }
        let rest = sent_to(out.drop_last(), r);
        if r == t {
            assert(!b.contains(t)) by {
                if b.contains(t) {
                    assert(members[b.index_of(t)] == members[k - 1]);
                }
            }
            assert(rest.push(out.last().msg).drop_last() =~= rest);
        }
    }
}

/// A row that gets `out` on top weighs that much more.
proof fn lemma_row_sent(c: ClusterView, a: NodeId, n: NodeView, k: nat)
    requires
        k <= c.members.len(),
    ensures
        c.flushed(a, n).row_load(a, k) == c.row_load(a, k) + sent_load(
            n.outbox,
            c.members,
            k,
            c.members.len(),
        ),
    decreases k,
{
    if k > 0 {
        lemma_row_sent(c, a, n, (k - 1) as nat);
        lemma_link_load_append(
            c.link(a, c.members[k - 1]),
            sent_to(n.outbox, c.members[k - 1]),
            c.members.len(),
        );
    }
}

/// A step adds at most the weight of what it sends.
proof fn lemma_load_flushed(c: ClusterView, a: NodeId, n: NodeView)
    requires
        c.members.no_duplicates(),
        c.members.contains(a),
    ensures
        c.flushed(a, n).load() <= c.load() + out_load(n.outbox, c.members.len()),
{
    let m = c.members.len();
    let d = c.flushed(a, n);
    lemma_rows_change(c, d, a, m);
    assert(c.members.take(m as int) =~= c.members);
    lemma_row_sent(c, a, n, m);
    lemma_sent_load(n.outbox, c.members, m, m);
}

/// Taking a message off a link takes its weight off the load.
proof fn lemma_load_pop(c: ClusterView, from: NodeId, to: NodeId)
    requires
        c.members.no_duplicates(),
        c.members.contains(from),
        c.members.contains(to),
        c.link(from, to).len() > 0,
    ensures
        c.load() == c.with_link(from, to, c.link(from, to).remove(0)).load() + weight(
            c.link(from, to)[0].kind,
            c.members.len(),
        ),
{
    let m = c.members.len();
    let d = c.with_link(from, to, c.link(from, to).remove(0));
    assert(c.members.take(m as int) =~= c.members);
    lemma_rows_change(c, d, from, m);
    lemma_row_change(c, d, from, to, m);
    lemma_link_load_tail(c.link(from, to), m);
}

/// Losing the oldest message on a link makes the load lighter.
pub proof fn lemma_load_lose(c: ClusterView, from: NodeId, to: NodeId)
    requires
        c.sane(),
        c.link(from, to).len() > 0,
    ensures
        c.next(Event::Lose { from, to, index: 0 }).load() < c.load(),
{
    let n = c.members.len();
    assert(c.sane_link(from, to));
    lemma_load_pop(c, from, to);
    assert(n * (n + 2) >= 0) by (nonlinear_arith);
}

/// Clearing links makes the load no heavier.
pub proof fn lemma_load_fewer(c: ClusterView, d: ClusterView)
    requires
        c.members == d.members,
        forall|s: NodeId, t: NodeId| #[trigger]
            d.link(s, t) == c.link(s, t) || d.link(s, t).len() == 0,
    ensures
        d.load() <= c.load(),
{
    lemma_rows_fewer(c, d, c.members.len());
}

proof fn lemma_rows_fewer(c: ClusterView, d: ClusterView, k: nat)
    requires
        c.members == d.members,
        forall|s: NodeId, t: NodeId| #[trigger]
            d.link(s, t) == c.link(s, t) || d.link(s, t).len() == 0,
    ensures
        d.rows_load(k) <= c.rows_load(k),
    decreases k,
{
    if k > 0 {
        lemma_rows_fewer(c, d, (k - 1) as nat);
        lemma_row_fewer(c, d, c.members[k - 1], c.members.len());
    }
}

proof fn lemma_row_fewer(c: ClusterView, d: ClusterView, s: NodeId, k: nat)
    requires
        c.members == d.members,
        forall|s: NodeId, t: NodeId| #[trigger]
            d.link(s, t) == c.link(s, t) || d.link(s, t).len() == 0,
    ensures
        d.row_load(s, k) <= c.row_load(s, k),
    decreases k,
{
    if k > 0 {
        lemma_row_fewer(c, d, s, (k - 1) as nat);
        let t = c.members[k - 1];
        assert(d.link(s, t) == c.link(s, t) || d.link(s, t).len() == 0);
    }
}

/// A list of messages of one kind.
proof fn lemma_out_load_uniform(out: Seq<OutgoingView>, kind: MessageKind, n: nat)
    requires
        forall|j: int| 0 <= j < out.len() ==> (#[trigger] out[j]).msg.kind == kind,
    ensures
        out_load(out, n) == out.len() * weight(kind, n),
    decreases out.len(),
{
    if out.len() == 0 {
        assert(0 * weight(kind, n) == 0);
    } else {
        let init = out.drop_last();
        assert forall|j: int| 0 <= j < init.len() implies (#[trigger] init[j]).msg.kind == kind by {
            assert(init[j] == out[j]);
        }
        lemma_out_load_uniform(init, kind, n);
        assert(out[out.len() - 1].msg.kind == kind);
        assert(out.len() * weight(kind, n) == init.len() * weight(kind, n) + weight(kind, n))
            by (nonlinear_arith)
            requires
                out.len() == init.len() + 1,
        ;
    }
}

/// No node asks more nodes than there are.
proof fn lemma_targets_fit(policy: QuorumPolicy, id: NodeId, members: Seq<NodeId>)
    requires
        crate::quorum::valid_members(id, members),
    ensures
        quorum_targets(policy, id, members).len() <= members.len(),
{
    lemma_grid_members(id, members);
    let t = quorum_targets(policy, id, members);
    assert(t.no_duplicates());
    members.unique_seq_to_set();
    t.unique_seq_to_set();
    assert(t.to_set().subset_of(members.to_set()));
    vstd::set_lib::lemma_len_subset(t.to_set(), members.to_set());
}

/// What a message has sent weighs less than the message.
proof fn lemma_answer_lighter(
    c: ClusterView,
    p: NodeId,
    now: Instant,
    from: NodeId,
    msg: MessageView,
)
    requires
        c.sane(),
        c.members.contains(p),
    ensures
        out_load(c.nodes[p].handle(now, from, msg).outbox, c.members.len()) < weight(
            msg.kind,
            c.members.len(),
        ),
{
    let n = c.nodes[p];
    let m = c.members.len();
    let h = n.handle(now, from, msg);
    let out = h.outbox;
    assert(c.sane_node(p));
    lemma_targets_fit(c.policy, p, c.members);
    assert(weight(msg.kind, m) > 0) by {
        assert(m * (m + 2) >= 0) by (nonlinear_arith);
    }
    if n.accepts(from, msg) {
        match msg.kind {
            MessageKind::Request => {
                assert(out.len() <= 1);
                if out.len() == 1 {
                    lemma_out_load_uniform(out, out[0].msg.kind, m);
                }
            },
            MessageKind::Grant => {
                if n.targets().contains(from) && n.request_of(msg.lock) == Some(msg.req) {
                    let r = n.requester.map[msg.lock];
                    let r2 = h.requester.map[msg.lock];
                    lemma_vote_added(r.votes, from);
                    lemma_out_load_uniform(out, MessageKind::Confirm, m);
                    assert(out.len() <= r2.votes.len() || out.len() == 1);
                    let t = n.targets();
                    r2.votes.unique_seq_to_set();
                    lemma_grid_members(p, c.members);
                    t.unique_seq_to_set();
                    assert(r2.votes.to_set().subset_of(t.to_set()));
                    vstd::set_lib::lemma_len_subset(r2.votes.to_set(), t.to_set());
                    assert(c.members.len() >= 1);
                }
            },
            MessageKind::Inquire
            | MessageKind::Yield
            | MessageKind::Release
            | MessageKind::Renew => {
                assert(out.len() <= 1);
                if out.len() == 1 {
                    lemma_out_load_uniform(out, out[0].msg.kind, m);
                }
            },
            MessageKind::Revoked => {
                lemma_out_load_uniform(out, MessageKind::Release, m);
                assert(out.len() <= n.targets().len());
                assert(out.len() * (m + 2) <= m * (m + 2)) by (nonlinear_arith)
                    requires
                        out.len() <= m,
                ;
            },
            MessageKind::Confirm => {},
        }
    }
}

/// **Deliveries end.** Every delivery makes the load lighter, so a cluster in
/// which nothing but deliveries happens comes to rest after at most as many
/// deliveries as its load.
pub proof fn law_deliveries_end(c: ClusterView, from: NodeId, to: NodeId, now: Instant)
    requires
        c.sane(),
        c.link(from, to).len() > 0,
    ensures
        c.next(Event::Deliver { from, to, now }).load() < c.load(),
{
    assert(c.sane_link(from, to));
    let link = c.link(from, to);
    let b = c.with_link(from, to, link.remove(0));
    let n = c.nodes[to].handle(now, from, link[0]);
    lemma_sane_with_link(c, from, to, 0);
    lemma_load_pop(c, from, to);
    lemma_load_flushed(b, to, n);
    lemma_answer_lighter(c, to, now, from, link[0]);
}

} // verus!
