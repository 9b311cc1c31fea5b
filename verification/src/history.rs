//! What holds of a single node over its life, whatever it is fed.
use vstd::prelude::*;

use crate::cluster::{
    is_about, lemma_count_positive, lemma_count_zero, lemma_sent_to, lemma_sent_to_complete, sent_to,
};
use crate::exclusion::{lemma_handle_other_lock, lemma_tick_asks, lemma_tick_votes, next_votee};
use crate::model::{
    arbiter_released, arbiter_yielded, lemma_smallest, send_all, ArbiterView, NodeView,
};
use crate::quorum::{valid_members, QuorumPolicy};
use crate::types::{
    plain_message, Instant, MessageKind, MessageView, NodeId, OutgoingView, RequestId,
};

verus! {

/// Something that a node is fed.
pub enum Input {
    Request { now: Instant, lock: Seq<char> },
    Release { lock: Seq<char> },
    Handle { now: Instant, from: NodeId, msg: MessageView },
    Tick { now: Instant },
}

impl NodeView {
    /// The node after an input. A request finds the clock below its maximum, or
    /// does nothing.
    pub open spec fn fed(self, input: Input) -> NodeView {
        match input {
            Input::Request { now, lock } => if self.lamport < u64::MAX {
                self.request(now, lock)
            } else {
                self
            },
            Input::Release { lock } => self.release(lock),
            Input::Handle { now, from, msg } => self.handle(now, from, msg),
            Input::Tick { now } => self.tick(now),
        }
    }

    /// The node after inputs, with everything drained after each of them.
    pub open spec fn after(self, inputs: Seq<Input>) -> NodeView
        decreases inputs.len(),
    {
        if inputs.len() == 0 {
            self
        } else {
            self.after(inputs.drop_last()).fed(inputs.last()).settled()
        }
    }

    /// What the node sends on input `k`.
    pub open spec fn sent_on(self, inputs: Seq<Input>, k: int) -> Seq<OutgoingView> {
        self.after(inputs.take(k)).fed(inputs[k]).outbox
    }
}

/// **Invalid messages change nothing.** A message from somebody who is no member, about
/// a request of no member, to an arbiter from another than the requester, or to a
/// requester about a request that is not its own, leaves the node as it was.
pub proof fn law_invalid_messages_change_nothing(
    n: NodeView,
    now: Instant,
    from: NodeId,
    msg: MessageView,
)
    requires
        !n.members.contains(from) || !n.members.contains(msg.req.node) || (msg.kind.to_arbiter()
            && from != msg.req.node) || (!msg.kind.to_arbiter() && msg.req.node != n.id),
    ensures
        n.handle(now, from, msg) == n,
        !n.gives_lease(from, msg),
{
}

/// A node stays what it is.
proof fn lemma_life(id: NodeId, policy: QuorumPolicy, members: Seq<NodeId>, inputs: Seq<Input>)
    requires
        valid_members(id, members),
    ensures
        ({
            let n = NodeView::fresh(id, policy, members).after(inputs);
            &&& n.wf()
            &&& n == n.settled()
            &&& n.id == id
            &&& n.policy == policy
            &&& n.members == members
        }),
    decreases inputs.len(),
{
    let start = NodeView::fresh(id, policy, members);
    if inputs.len() == 0 {
        NodeView::lemma_fresh_wf(id, policy, members);
    } else {
        lemma_life(id, policy, members, inputs.drop_last());
        let n = start.after(inputs.drop_last());
        match inputs.last() {
            Input::Request { now, lock } => {
                if n.lamport < u64::MAX {
                    n.lemma_request_wf(now, lock);
                }
            },
            Input::Release { lock } => n.lemma_release_wf(lock),
            Input::Handle { now, from, msg } => n.lemma_handle_wf(now, from, msg),
            Input::Tick { now } => n.lemma_tick_wf(now),
        }
    }
}

/// After an input the clock is not behind what it was, nor behind any request that the
/// node sends, all of which are its own.
proof fn lemma_fed(n: NodeView, input: Input, j: int)
    requires
        n.wf(),
        n.outbox.len() == 0,
    ensures
        n.fed(input).lamport >= n.lamport,
        0 <= j < n.fed(input).outbox.len() && n.fed(input).outbox[j].msg.kind is Request ==> (
        n.fed(input).outbox[j].msg.req.node == n.id && n.fed(input).outbox[j].msg.req.ts <= n.fed(
            input,
        ).lamport),
{
    let out = n.fed(input).outbox;
    match input {
        Input::Tick { now } => {
            if 0 <= j < out.len() && out[j].msg.kind is Request {
                lemma_tick_asks(n, now, j);
                assert(n.requester_wf(n.requester.map[out[j].msg.lock]));
            }
        },
        _ => {},
    }
}

/// The clock is not behind any request that was sent or heard of.
proof fn lemma_clock(
    id: NodeId,
    policy: QuorumPolicy,
    members: Seq<NodeId>,
    inputs: Seq<Input>,
    k: int,
)
    requires
        valid_members(id, members),
        0 <= k < inputs.len(),
    ensures
        ({
            let start = NodeView::fresh(id, policy, members);
            let ts = start.after(inputs).lamport;
            &&& forall|j: int|
                0 <= j < start.sent_on(inputs, k).len() && (#[trigger] start.sent_on(
                    inputs,
                    k,
                )[j]).msg.kind is Request ==> start.sent_on(inputs, k)[j].msg.req.node == id
                    && start.sent_on(inputs, k)[j].msg.req.ts <= ts
            &&& inputs[k] matches Input::Handle { from, msg, .. } ==> (msg.kind is Request
                && start.accepts(from, msg) ==> msg.req.ts <= ts)
        }),
    decreases inputs.len(),
{
    let start = NodeView::fresh(id, policy, members);
    let init = inputs.drop_last();
    let n = start.after(init);
    lemma_life(id, policy, members, init);
    assert(n.outbox =~= Seq::empty());
    lemma_fed(n, inputs.last(), 0);
    if k < init.len() {
        lemma_clock(id, policy, members, init, k);
        assert(init.take(k) =~= inputs.take(k));
    } else {
        assert(inputs.take(k) =~= init);
        let out = start.sent_on(inputs, k);
        assert forall|j: int| 0 <= j < out.len() && (#[trigger] out[j]).msg.kind
            is Request implies out[j].msg.req.node == id && out[j].msg.req.ts <= start.after(
            inputs,
        ).lamport by {
            lemma_fed(n, inputs.last(), j);
        }
    }
}

/// **Request ids are never used again.** The id of a new request is the node's own and
/// later than that of every request that the node has sent and of every valid request
/// that it has heard of, in all its life.
pub proof fn law_request_ids_are_never_used_again(
    id: NodeId,
    policy: QuorumPolicy,
    members: Seq<NodeId>,
    inputs: Seq<Input>,
    now: Instant,
    lock: Seq<char>,
)
    requires
        valid_members(id, members),
        NodeView::fresh(id, policy, members).after(inputs).lamport < u64::MAX,
        !NodeView::fresh(id, policy, members).after(inputs).requester.map.contains_key(lock),
    ensures
        ({
            let start = NodeView::fresh(id, policy, members);
            let n = start.after(inputs);
            let r = n.next_request();
            &&& r.node == id
            &&& n.request(now, lock).outbox == send_all(
                n.targets(),
                plain_message(MessageKind::Request, lock, r),
            )
            &&& forall|k: int, j: int|
                0 <= k < inputs.len() && 0 <= j < start.sent_on(inputs, k).len() && (
                #[trigger] start.sent_on(inputs, k)[j]).msg.kind is Request ==> start.sent_on(
                    inputs,
                    k,
                )[j].msg.req.ts < r.ts
            &&& forall|k: int|
                0 <= k < inputs.len() ==> (#[trigger] inputs[k] matches Input::Handle {
                    from,
                    msg,
                    ..
                } ==> (msg.kind is Request && start.accepts(from, msg) ==> msg.req.ts < r.ts))
        }),
{
    let start = NodeView::fresh(id, policy, members);
    let n = start.after(inputs);
    lemma_life(id, policy, members, inputs);
    assert(n.outbox =~= Seq::empty());
    assert forall|k: int, j: int|
        0 <= k < inputs.len() && 0 <= j < start.sent_on(inputs, k).len() && (
        #[trigger] start.sent_on(inputs, k)[j]).msg.kind is Request implies start.sent_on(
        inputs,
        k,
    )[j].msg.req.ts < n.next_request().ts by {
        lemma_clock(id, policy, members, inputs, k);
    }
    assert forall|k: int| 0 <= k < inputs.len() implies (#[trigger] inputs[k] matches Input::Handle {
        from,
        msg,
        ..
    } ==> (msg.kind is Request && start.accepts(from, msg) ==> msg.req.ts
        < n.next_request().ts)) by {
        lemma_clock(id, policy, members, inputs, k);
    }
}

// ---- one vote per lock ------------------------------------------------------------------
/// The node sends a vote for `lock` to `r`.
pub open spec fn grants(out: Seq<OutgoingView>, lock: Seq<char>, r: RequestId) -> bool {
    exists|j: int|
        0 <= j < out.len() && is_about((#[trigger] out[j]).msg, MessageKind::Grant, lock, r)
}

/// The node tells `r` that it has lost the vote for `lock`.
pub open spec fn revokes(out: Seq<OutgoingView>, lock: Seq<char>, r: RequestId) -> bool {
    exists|j: int|
        0 <= j < out.len() && is_about((#[trigger] out[j]).msg, MessageKind::Revoked, lock, r)
            && out[j].to == r.node
}

impl NodeView {
    /// The vote for `lock` comes back from `r` on this input: `r` yields or releases it,
    /// or its lease lapses and it is told.
    pub open spec fn vote_comes_back(self, input: Input, lock: Seq<char>, r: RequestId) -> bool {
        match input {
            Input::Handle { from, msg, .. } => from == r.node && (is_about(
                msg,
                MessageKind::Yield,
                lock,
                r,
            ) || is_about(msg, MessageKind::Release, lock, r)),
            Input::Tick { .. } => revokes(self.fed(input).outbox, lock, r),
            _ => false,
        }
    }
}

/// The next in line has waited.
proof fn lemma_next(a: ArbiterView)
    requires
        a.queue.finite(),
    ensures
        next_votee(a) matches Some(v) ==> a.queue.contains(v),
{
    if !(a.queue =~= Set::empty()) {
        if a.queue.len() == 0 {
            assert(a.queue =~= Set::empty());
        }
        lemma_smallest(a.queue);
    }
}

/// What an input does to a vote: whoever is sent the vote has it, and whoever has it
/// keeps it, alone, until it comes back.
proof fn lemma_vote_kept(n: NodeView, input: Input, lock: Seq<char>)
    requires
        n.wf(),
        n.outbox.len() == 0,
    ensures
        forall|r: RequestId| #[trigger]
            grants(n.fed(input).outbox, lock, r) ==> n.fed(input).arbiter_of(lock).voted_for
                == Some(r),
        n.arbiter_of(lock).voted_for matches Some(r) ==> n.vote_comes_back(input, lock, r) || (
        n.fed(input).arbiter_of(lock).voted_for == Some(r) && forall|s: RequestId| !#[trigger]
            grants(n.fed(input).outbox, lock, s)),
{
    let m = n.fed(input);
    let a = n.arbiter_of(lock);
    assert(a.wf());
    match input {
        Input::Handle { now, from, msg } => {
            if msg.lock != lock {
                lemma_handle_other_lock(n, now, from, msg, lock);
            } else if msg.kind is Yield {
                lemma_next(arbiter_yielded(a, msg.req));
            } else if msg.kind is Release {
                lemma_next(arbiter_released(a, msg.req, msg.fence));
            }
        },
        Input::Tick { now } => {
            lemma_tick_moves(n, now, lock);
        },
        _ => {},
    }
}

/// [`lemma_vote_kept`] for the passing of time.
proof fn lemma_tick_moves(n: NodeView, now: Instant, lock: Seq<char>)
    requires
        n.wf(),
        n.outbox.len() == 0,
    ensures
        forall|r: RequestId| #[trigger]
            grants(n.tick(now).outbox, lock, r) ==> n.arbiter_of(lock).lapsed(now) && n.tick(
                now,
            ).arbiter_of(lock).voted_for == Some(r),
        n.arbiter_of(lock).voted_for matches Some(r) ==> if n.arbiter_of(lock).lapsed(now) {
            revokes(n.tick(now).outbox, lock, r)
        } else {
            n.tick(now).arbiter_of(lock).voted_for == Some(r)
        },
{
    let t = n.tick(now);
    let a = n.arbiter_of(lock);
    assert forall|r: RequestId| #[trigger] grants(t.outbox, lock, r) implies a.lapsed(now)
        && t.arbiter_of(lock).voted_for == Some(r) by {
        let j = choose|j: int|
            0 <= j < t.outbox.len() && is_about(
                (#[trigger] t.outbox[j]).msg,
                MessageKind::Grant,
                lock,
                r,
            );
        lemma_sent_to_complete(t.outbox, j);
        let to = t.outbox[j].to;
        let s = sent_to(t.outbox, to);
        lemma_count_positive(
            s,
            s.index_of(t.outbox[j].msg),
            MessageKind::Grant,
            lock,
            r,
        );
        lemma_tick_votes(n, now, lock, r, to);
    }
    if let Some(r) = a.voted_for {
        lemma_tick_votes(n, now, lock, r, r.node);
        if a.lapsed(now) {
            let s = sent_to(t.outbox, r.node);
            lemma_count_zero(s, MessageKind::Revoked, lock, r);
            let i = choose|i: int|
                0 <= i < s.len() && is_about(#[trigger] s[i], MessageKind::Revoked, lock, r);
            let j = lemma_sent_to(t.outbox, r.node, i);
            assert(is_about(t.outbox[j].msg, MessageKind::Revoked, lock, r));
        }
    }
}

/// **One vote per lock at a time.** After a node has sent its vote for a lock to `r`, it
/// sends that vote to anybody again only after the vote has come back from `r`: `r` has
/// yielded or released it, or its lease has lapsed and it was told.
pub proof fn law_one_vote_per_lock(
    id: NodeId,
    policy: QuorumPolicy,
    members: Seq<NodeId>,
    inputs: Seq<Input>,
    i: int,
    j: int,
    lock: Seq<char>,
    r: RequestId,
    s: RequestId,
) -> (m: int)
    requires
        valid_members(id, members),
        0 <= i < j < inputs.len(),
        grants(NodeView::fresh(id, policy, members).sent_on(inputs, i), lock, r),
        grants(NodeView::fresh(id, policy, members).sent_on(inputs, j), lock, s),
    ensures
        i < m <= j,
        NodeView::fresh(id, policy, members).after(inputs.take(m)).vote_comes_back(
            inputs[m],
            lock,
            r,
        ),
{
    let start = NodeView::fresh(id, policy, members);
    let n = start.after(inputs.take(i));
    lemma_life(id, policy, members, inputs.take(i));
    assert(n.outbox =~= Seq::empty());
    lemma_vote_kept(n, inputs[i], lock);
    assert(inputs.take(i + 1).drop_last() =~= inputs.take(i));
    assert(inputs.take(i + 1).last() == inputs[i]);
    lemma_vote_stays(id, policy, members, inputs, i + 1, j, lock, r, s)
}

/// A vote that somebody has at input `i` and that is sent out at input `j` has come back
/// in between.
proof fn lemma_vote_stays(
    id: NodeId,
    policy: QuorumPolicy,
    members: Seq<NodeId>,
    inputs: Seq<Input>,
    i: int,
    j: int,
    lock: Seq<char>,
    r: RequestId,
    s: RequestId,
) -> (m: int)
    requires
        valid_members(id, members),
        0 <= i <= j < inputs.len(),
        NodeView::fresh(id, policy, members).after(inputs.take(i)).arbiter_of(lock).voted_for
            == Some(r),
        grants(NodeView::fresh(id, policy, members).sent_on(inputs, j), lock, s),
    ensures
        i <= m <= j,
        NodeView::fresh(id, policy, members).after(inputs.take(m)).vote_comes_back(
            inputs[m],
            lock,
            r,
        ),
    decreases j - i,
{
    let start = NodeView::fresh(id, policy, members);
    let n = start.after(inputs.take(i));
    lemma_life(id, policy, members, inputs.take(i));
    assert(n.outbox =~= Seq::empty());
    lemma_vote_kept(n, inputs[i], lock);
    if n.vote_comes_back(inputs[i], lock, r) {
        i
    } else {
        assert(i < j);
        assert(inputs.take(i + 1).drop_last() =~= inputs.take(i));
        assert(inputs.take(i + 1).last() == inputs[i]);
        lemma_vote_stays(id, policy, members, inputs, i + 1, j, lock, r, s)
    }
}

/// To whom the passing of time has a vote sent.
proof fn lemma_tick_grants(n: NodeView, now: Instant, lock: Seq<char>, r: RequestId)
    requires
        n.wf(),
        n.outbox.len() == 0,
    ensures
        grants(n.tick(now).outbox, lock, r) <==> n.arbiter_of(lock).lapsed(now) && next_votee(
            n.arbiter_of(lock),
        ) == Some(r),
{
    let out = n.tick(now).outbox;
    lemma_tick_votes(n, now, lock, r, r.node);
    lemma_tick_moves(n, now, lock);
    if n.arbiter_of(lock).lapsed(now) && next_votee(n.arbiter_of(lock)) == Some(r) {
        let s = sent_to(out, r.node);
        lemma_count_zero(s, MessageKind::Grant, lock, r);
        let i = choose|i: int|
            0 <= i < s.len() && is_about(#[trigger] s[i], MessageKind::Grant, lock, r);
        let j = lemma_sent_to(out, r.node, i);
        assert(is_about(out[j].msg, MessageKind::Grant, lock, r));
    }
}

/// **Locks do not interfere.** What a message or the passing of time does to the vote for
/// a lock, and to whom it has the node send that vote, depends on what the node knows of
/// that lock alone.
pub proof fn law_locks_do_not_interfere(
    a: NodeView,
    b: NodeView,
    now: Instant,
    from: NodeId,
    msg: MessageView,
    lock: Seq<char>,
)
    requires
        a.wf(),
        b.wf(),
        a.outbox.len() == 0,
        b.outbox.len() == 0,
        a.id == b.id,
        a.members == b.members,
        a.arbiter.get(lock) == b.arbiter.get(lock),
    ensures
        a.handle(now, from, msg).arbiter.get(lock) == b.handle(now, from, msg).arbiter.get(lock),
        a.tick(now).arbiter.get(lock) == b.tick(now).arbiter.get(lock),
        forall|r: RequestId| #[trigger]
            grants(a.handle(now, from, msg).outbox, lock, r) <==> grants(
                b.handle(now, from, msg).outbox,
                lock,
                r,
            ),
        forall|r: RequestId| #[trigger]
            grants(a.tick(now).outbox, lock, r) <==> grants(b.tick(now).outbox, lock, r),
{
    assert(a.arbiter_of(lock) == b.arbiter_of(lock));
    assert forall|r: RequestId| #[trigger] grants(a.tick(now).outbox, lock, r) <==> grants(
        b.tick(now).outbox,
        lock,
        r,
    ) by {
        lemma_tick_grants(a, now, lock, r);
        lemma_tick_grants(b, now, lock, r);
    }
    if msg.lock != lock {
        lemma_handle_other_lock(a, now, from, msg, lock);
        lemma_handle_other_lock(b, now, from, msg, lock);
    }
}

} // verus!
