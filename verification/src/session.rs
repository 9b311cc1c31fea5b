//! What holds of a client and its coordinator over a whole session.
//!
//! The client makes every request to the coordinator under an id that it never uses
//! again. So whatever is acquired for an id is what was asked for with it, and whoever
//! is done with an id can be rid of it for good.
use vstd::prelude::*;

use crate::client_api::{
    bounded_error, cancellations, lemma_slot_index, nth_id, slot_index, slot_lock, slot_resource,
    slots_of, stage_wf, AnswerView, AskView, HeardView, LockClientView, ResourceView,
    SlotKind, SlotView, StageView, WaiterId,
};
use crate::coordinator::{
    lemma_waiter_index, token_of, waiter_index, without_token, without_waiter, CoordinatorView,
    WaiterView,
};
use crate::slots::has_slot;
use crate::tokens::{
    law_permits_are_distinct, lemma_waiters_stepped, queues_for, ClientStep, Step,
};
use crate::transport::NodeEventView;

verus! {

/// Something that happens in a session: the client does or hears something, or the
/// coordinator does.
pub enum Move {
    Client(ClientStep),
    Coordinator(Step),
}

/// A client and its coordinator.
pub struct SessionView {
    pub client: LockClientView,
    pub coordinator: CoordinatorView,
    /// What was asked for with each id that was used: a lock, to hold a resource.
    pub made: Map<WaiterId, (Seq<char>, ResourceView)>,
    /// The ids of the requests that have not reached the coordinator.
    pub unsent: Set<WaiterId>,
}

/// One of the requests is made with the id.
pub open spec fn asks_with(asks: Seq<AskView>, w: WaiterId) -> bool {
    exists|i: int| 0 <= i < asks.len() && asks_at(asks, i, w)
}

/// The request at `i` is made with the id.
pub open spec fn asks_at(asks: Seq<AskView>, i: int, w: WaiterId) -> bool {
    asks[i] matches AskView::Acquire { waiter, .. } && waiter == w
}

/// What the request with the id asks for.
pub open spec fn asked_with(asks: Seq<AskView>, w: WaiterId) -> (Seq<char>, ResourceView) {
    let i = choose|i: int| 0 <= i < asks.len() && asks_at(asks, i, w);
    match asks[i] {
        AskView::Acquire { lock, resource, .. } => (lock, resource),
        _ => arbitrary(),
    }
}

impl SessionView {
    /// Nothing has happened.
    pub open spec fn fresh() -> SessionView {
        SessionView {
            client: LockClientView::fresh(),
            coordinator: CoordinatorView::fresh(),
            made: Map::empty(),
            unsent: Set::empty(),
        }
    }

    /// The move can be made: calls are in order and ids do not start over; the coordinator
    /// can take the step, and gets each request of the client once, and no others.
    pub open spec fn allows(self, m: Move) -> bool {
        match m {
            Move::Client(step) => {
                &&& step matches ClientStep::Hear { stage, .. } ==> stage_wf(stage)
                &&& self.client.called(step).0.next_waiter >= self.client.next_waiter
            },
            Move::Coordinator(step) => {
                &&& self.coordinator.allows(step)
                &&& step matches Step::Acquire { lock, waiter } ==> self.unsent.contains(waiter.id)
                    && self.made[waiter.id] == (lock, waiter.resource)
            },
        }
    }

    /// The session after a move.
    pub open spec fn moved(self, m: Move) -> SessionView {
        match m {
            Move::Client(step) => {
                let (client, call) = self.client.called(step);
                SessionView {
                    client,
                    made: Map::new(
                        |w: WaiterId| self.made.contains_key(w) || asks_with(call.asks, w),
                        |w: WaiterId|
                            if asks_with(call.asks, w) {
                                asked_with(call.asks, w)
                            } else {
                                self.made[w]
                            },
                    ),
                    unsent: Set::new(
                        |w: WaiterId| self.unsent.contains(w) || asks_with(call.asks, w),
                    ),
                    ..self
                }
            },
            Move::Coordinator(step) => SessionView {
                coordinator: self.coordinator.stepped(step),
                unsent: match step {
                    Step::Acquire { waiter, .. } => self.unsent.remove(waiter.id),
                    _ => self.unsent,
                },
                ..self
            },
        }
    }

    /// The session after moves.
    pub open spec fn after(self, moves: Seq<Move>) -> SessionView
        decreases moves.len(),
    {
        if moves.len() == 0 {
            self
        } else {
            self.after(moves.drop_last()).moved(moves.last())
        }
    }

    /// Every one of the moves can be made when it is its turn.
    pub open spec fn allows_all(self, moves: Seq<Move>) -> bool
        decreases moves.len(),
    {
        moves.len() > 0 ==> self.allows_all(moves.drop_last()) && self.after(
            moves.drop_last(),
        ).allows(moves.last())
    }

    /// The id was used to ask for `lock`, to hold `resource`, and the coordinator has got
    /// that request.
    pub open spec fn sent(self, w: WaiterId, lock: Seq<char>, resource: ResourceView) -> bool {
        self.made.contains_key(w) && self.made[w] == (lock, resource) && !self.unsent.contains(w)
    }

    /// The id is the one that holds `lock`.
    pub open spec fn holds_with(self, lock: Seq<char>, w: WaiterId) -> bool {
        self.coordinator.queue(lock).holder matches Some(h) && h.waiter == w
    }

    /// The id is the one that `lock` is offered to.
    pub open spec fn offered_with(self, w: WaiterId) -> bool {
        self.coordinator.offered matches Some(o) && o.waiter.id == w
    }

    /// The id is in the queue of `lock`.
    pub open spec fn queued_with(self, lock: Seq<char>, w: WaiterId) -> bool {
        exists|i: int|
            0 <= i < self.coordinator.queue(lock).waiters.len() && (
            #[trigger] self.coordinator.queue(lock).waiters[i]).id == w
    }

    /// Every id that the coordinator knows was used once, for what the coordinator knows it
    /// for, and is in one place: in a queue, on its way to its waiter, or a holder's.
    #[verifier::opaque]
    pub open spec fn in_order(self) -> bool {
        &&& self.coordinator.wf()
        &&& forall|w: WaiterId| #[trigger]
            self.made.contains_key(w) ==> w < self.client.next_waiter
        &&& forall|w: WaiterId| #[trigger] self.unsent.contains(w) ==> self.made.contains_key(w)
        &&& forall|l: Seq<char>, i: int|
            0 <= i < self.coordinator.queue(l).waiters.len() ==> self.sent(
                (#[trigger] self.coordinator.queue(l).waiters[i]).id,
                l,
                self.coordinator.queue(l).waiters[i].resource,
            )
        &&& forall|l: Seq<char>, i: int, j: int|
            0 <= i < j < self.coordinator.queue(l).waiters.len() ==> (
            #[trigger] self.coordinator.queue(l).waiters[i]).id != (
            #[trigger] self.coordinator.queue(l).waiters[j]).id
        &&& self.coordinator.offered matches Some(o) ==> self.sent(
            o.waiter.id,
            o.lock,
            o.waiter.resource,
        ) && !self.queued_with(o.lock, o.waiter.id)
        &&& forall|l: Seq<char>|
            (#[trigger] self.coordinator.queue(l)).holder matches Some(h) ==> {
                &&& self.sent(h.waiter, l, h.resource)
                &&& !self.queued_with(l, h.waiter)
                &&& !self.offered_with(h.waiter)
                &&& token_of(self.coordinator.waiter_holders, h.waiter) == Some(h.token)
            }
    }

    /// The coordinator is done with the id: nothing is asked for, offered to or held by it.
    pub open spec fn gone(self, w: WaiterId) -> bool {
        &&& self.made.contains_key(w)
        &&& !self.unsent.contains(w)
        &&& !self.offered_with(w)
        &&& forall|l: Seq<char>| !#[trigger] self.queued_with(l, w)
        &&& forall|l: Seq<char>| !#[trigger] self.holds_with(l, w)
    }
}

// ---- tokens of waiters -----------------------------------------------------------------------
proof fn lemma_token_without_waiter(s: Seq<(WaiterId, Seq<char>)>, w: WaiterId, v: WaiterId)
    requires
        v != w,
    ensures
        token_of(without_waiter(s, w), v) == token_of(s, v),
    decreases s.len(),
{
    if s.len() > 0 {
        lemma_token_without_waiter(s.drop_last(), w, v);
        let rest = without_waiter(s.drop_last(), w);
        assert(rest.push(s.last()).drop_last() =~= rest);
    }
}

proof fn lemma_token_without_token(s: Seq<(WaiterId, Seq<char>)>, t: Seq<char>, v: WaiterId)
    requires
        token_of(s, v) != Some(t),
        token_of(s, v) is Some,
    ensures
        token_of(without_token(s, t), v) == token_of(s, v),
    decreases s.len(),
{
    if s.len() > 0 {
        let rest = without_token(s.drop_last(), t);
        if s.last().0 != v {
            lemma_token_without_token(s.drop_last(), t, v);
        }
        assert(rest.push(s.last()).drop_last() =~= rest);
    }
}

proof fn lemma_token_pushed(s: Seq<(WaiterId, Seq<char>)>, w: WaiterId, t: Seq<char>, v: WaiterId)
    ensures
        token_of(s.push((w, t)), v) == if v == w {
            Some(t)
        } else {
            token_of(s, v)
        },
{
    assert(s.push((w, t)).drop_last() =~= s);
}

// ---- what the client asks -----------------------------------------------------------------------
/// The requests for locks in a call are made with the next ids, one each, or there are
/// none.
proof fn lemma_asks(c: LockClientView, step: ClientStep)
    ensures
        ({
            let (d, call) = c.called(step);
            ||| (forall|i: int| 0 <= i < call.asks.len() ==> !((#[trigger] call.asks[i]) is Acquire))
                && d.next_waiter == c.next_waiter
            ||| (forall|i: int|
                0 <= i < call.asks.len() ==> ((#[trigger] call.asks[i]) matches AskView::Acquire {
                    waiter,
                    ..
                } && waiter == nth_id(c.next_waiter, i as nat))) && d.next_waiter == nth_id(
                c.next_waiter,
                call.asks.len(),
            ) && call.asks.len() <= u32::MAX
        }),
{
    assert(nth_id(c.next_waiter, 0) == c.next_waiter);
}

/// The ids of a call were not used before, if ids do not start over.
proof fn lemma_ids(c: LockClientView, step: ClientStep, w: WaiterId)
    requires
        c.called(step).0.next_waiter >= c.next_waiter,
    ensures
        asks_with(c.called(step).1.asks, w) ==> c.next_waiter <= w < c.called(step).0.next_waiter,
        forall|i: int, j: int|
            0 <= i < c.called(step).1.asks.len() && 0 <= j < c.called(step).1.asks.len()
                && #[trigger] asks_at(c.called(step).1.asks, i, w) && #[trigger] asks_at(
                c.called(step).1.asks,
                j,
                w,
            ) ==> i == j,
{
    lemma_asks(c, step);
    let (d, call) = c.called(step);
    assert forall|i: int| 0 <= i < call.asks.len() && call.asks[i] is Acquire implies #[trigger] nth_id(
        c.next_waiter,
        i as nat,
    ) == c.next_waiter + i by {
        if c.next_waiter + call.asks.len() > u64::MAX {
            assert(d.next_waiter == c.next_waiter + call.asks.len() - 0x1_0000_0000_0000_0000);
        }
    }
    assert forall|i: int, j: int|
        0 <= i < call.asks.len() && 0 <= j < call.asks.len() && #[trigger] asks_at(call.asks, i, w)
            && #[trigger] asks_at(call.asks, j, w) implies i == j by {
        assert(call.asks[i] is Acquire && call.asks[j] is Acquire);
        assert(nth_id(c.next_waiter, i as nat) == c.next_waiter + i);
        assert(nth_id(c.next_waiter, j as nat) == c.next_waiter + j);
    }
    if asks_with(call.asks, w) {
        let i = choose|i: int| 0 <= i < call.asks.len() && asks_at(call.asks, i, w);
        assert(call.asks[i] is Acquire);
        assert(nth_id(c.next_waiter, i as nat) == c.next_waiter + i);
        if c.next_waiter + call.asks.len() > u64::MAX {
            assert(d.next_waiter == c.next_waiter + call.asks.len() - 0x1_0000_0000_0000_0000);
        }
    }
}

// ---- moves keep the session in order ----------------------------------------------------------
/// What the client does keeps the session in order.
proof fn lemma_client_moves(s: SessionView, step: ClientStep)
    requires
        s.in_order(),
        s.allows(Move::Client(step)),
    ensures
        s.moved(Move::Client(step)).in_order(),
        forall|w: WaiterId| #[trigger]
            s.made.contains_key(w) ==> s.moved(Move::Client(step)).made[w] == s.made[w]
                && s.moved(Move::Client(step)).made.contains_key(w)
                && s.moved(Move::Client(step)).unsent.contains(w) == s.unsent.contains(w),
{
    reveal(SessionView::in_order);
    let t = s.moved(Move::Client(step));
    let asks = s.client.called(step).1.asks;
    assert(t.coordinator == s.coordinator);
    assert forall|w: WaiterId| #[trigger] s.made.contains_key(w) implies t.made[w] == s.made[w]
        && t.made.contains_key(w) && t.unsent.contains(w) == s.unsent.contains(w) && !asks_with(
        asks,
        w,
    ) by {
        lemma_ids(s.client, step, w);
    }
    assert forall|w: WaiterId| #[trigger] t.made.contains_key(w) implies w
        < t.client.next_waiter by {
        lemma_ids(s.client, step, w);
        if !asks_with(asks, w) {
            assert(s.made.contains_key(w));
        }
    }
    assert forall|l: Seq<char>, w: WaiterId| s.queued_with(l, w) == #[trigger] t.queued_with(
        l,
        w,
    ) by {}
    assert forall|l: Seq<char>, i: int|
        0 <= i < t.coordinator.queue(l).waiters.len() implies t.sent(
        (#[trigger] t.coordinator.queue(l).waiters[i]).id,
        l,
        t.coordinator.queue(l).waiters[i].resource,
    ) by {
        assert(s.made.contains_key(s.coordinator.queue(l).waiters[i].id));
    }
}

/// A session in which each lock's queue is what it was or got shorter is in order, as long
/// as what is offered and held is.
proof fn lemma_shrunk(s: SessionView, t: SessionView)
    requires
        s.in_order(),
        t.coordinator.wf(),
        t.made == s.made,
        t.unsent == s.unsent,
        t.client == s.client,
        forall|l: Seq<char>| #[trigger] part_of(t.coordinator.queue(l).waiters, s.coordinator.queue(l).waiters),
        t.coordinator.offered matches Some(o) ==> s.sent(o.waiter.id, o.lock, o.waiter.resource)
            && !t.queued_with(o.lock, o.waiter.id),
        forall|l: Seq<char>|
            (#[trigger] t.coordinator.queue(l)).holder matches Some(h) ==> {
                &&& s.sent(h.waiter, l, h.resource)
                &&& !t.queued_with(l, h.waiter)
                &&& !t.offered_with(h.waiter)
                &&& token_of(t.coordinator.waiter_holders, h.waiter) == Some(h.token)
            },
    ensures
        t.in_order(),
{
    reveal(SessionView::in_order);
    assert forall|l: Seq<char>, i: int|
        0 <= i < t.coordinator.queue(l).waiters.len() implies t.sent(
        (#[trigger] t.coordinator.queue(l).waiters[i]).id,
        l,
        t.coordinator.queue(l).waiters[i].resource,
    ) by {
        assert(part_of(t.coordinator.queue(l).waiters, s.coordinator.queue(l).waiters));
        let j = lemma_part(
            t.coordinator.queue(l).waiters,
            s.coordinator.queue(l).waiters,
            i,
            i,
        ).0;
        assert(s.coordinator.queue(l).waiters[j] == t.coordinator.queue(l).waiters[i]);
    }
    assert forall|l: Seq<char>, i: int, j: int|
        0 <= i < j < t.coordinator.queue(l).waiters.len() implies (
    #[trigger] t.coordinator.queue(l).waiters[i]).id != (
    #[trigger] t.coordinator.queue(l).waiters[j]).id by {
        let now = t.coordinator.queue(l).waiters;
        let was = s.coordinator.queue(l).waiters;
        assert(part_of(now, was));
        let (a, b) = lemma_part(now, was, i, j);
        assert(s.coordinator.queue(l).waiters[a].id != s.coordinator.queue(l).waiters[b].id);
    }
}

/// The queue as it was, or without one of its waiters.
pub open spec fn part_of(now: Seq<WaiterView>, was: Seq<WaiterView>) -> bool {
    now == was || exists|x: int| 0 <= x < was.len() && now == #[trigger] was.remove(x)
}

/// Where two waiters were.
proof fn lemma_part(now: Seq<WaiterView>, was: Seq<WaiterView>, i: int, j: int) -> (at: (int, int))
    requires
        part_of(now, was),
        0 <= i <= j < now.len(),
    ensures
        0 <= at.0 <= at.1 < was.len(),
        now[i] == was[at.0],
        now[j] == was[at.1],
        i < j ==> at.0 < at.1,
{
    if now == was {
        (i, j)
    } else {
        let x = choose|x: int| 0 <= x < was.len() && now == #[trigger] was.remove(x);
        (
            if i < x {
                i
            } else {
                i + 1
            },
            if j < x {
                j
            } else {
                j + 1
            },
        )
    }
}

/// Whoever queues now queued before.
proof fn lemma_part_queued(s: SessionView, t: SessionView, l: Seq<char>, w: WaiterId)
    requires
        part_of(t.coordinator.queue(l).waiters, s.coordinator.queue(l).waiters),
    ensures
        t.queued_with(l, w) ==> s.queued_with(l, w),
{
    let now = t.coordinator.queue(l).waiters;
    let was = s.coordinator.queue(l).waiters;
    if t.queued_with(l, w) {
        let i = choose|i: int| 0 <= i < now.len() && (#[trigger] now[i]).id == w;
        let j = lemma_part(now, was, i, i).0;
        assert(s.coordinator.queue(l).waiters[j].id == w);
    }
}

/// A request that reaches the coordinator keeps the session in order.
proof fn lemma_acquire_moves(s: SessionView, lock: Seq<char>, waiter: WaiterView)
    requires
        s.in_order(),
        s.allows(Move::Coordinator(Step::Acquire { lock, waiter })),
    ensures
        s.moved(Move::Coordinator(Step::Acquire { lock, waiter })).in_order(),
{
    reveal(SessionView::in_order);
    let t = s.moved(Move::Coordinator(Step::Acquire { lock, waiter }));
    s.coordinator.lemma_stepped_wf(Step::Acquire { lock, waiter });
    let was = s.coordinator.queue(lock).waiters;
    assert(t.coordinator.queue(lock).waiters == was.push(waiter));
    assert(!s.queued_with(lock, waiter.id)) by {
        if s.queued_with(lock, waiter.id) {
            let i = choose|i: int| 0 <= i < was.len() && (#[trigger] was[i]).id == waiter.id;
            assert(s.coordinator.queue(lock).waiters[i].id == waiter.id);
        }
    }
    assert forall|l: Seq<char>, i: int|
        0 <= i < t.coordinator.queue(l).waiters.len() implies t.sent(
        (#[trigger] t.coordinator.queue(l).waiters[i]).id,
        l,
        t.coordinator.queue(l).waiters[i].resource,
    ) by {
        if l == lock && i == was.len() {
        } else {
            assert(t.coordinator.queue(l).waiters[i] == s.coordinator.queue(l).waiters[i]);
            assert(s.sent(
                s.coordinator.queue(l).waiters[i].id,
                l,
                s.coordinator.queue(l).waiters[i].resource,
            ));
        }
    }
    assert forall|l: Seq<char>, i: int, j: int|
        0 <= i < j < t.coordinator.queue(l).waiters.len() implies (
    #[trigger] t.coordinator.queue(l).waiters[i]).id != (
    #[trigger] t.coordinator.queue(l).waiters[j]).id by {
        assert(t.coordinator.queue(l).waiters[i] == s.coordinator.queue(l).waiters[i]);
        if l == lock && j == was.len() {
            assert(s.coordinator.queue(l).waiters[i].id != waiter.id);
        } else {
            assert(t.coordinator.queue(l).waiters[j] == s.coordinator.queue(l).waiters[j]);
        }
    }
    assert forall|l: Seq<char>|
        (#[trigger] t.coordinator.queue(l)).holder matches Some(h) ==> {
            &&& t.sent(h.waiter, l, h.resource)
            &&& !t.queued_with(l, h.waiter)
            &&& !t.offered_with(h.waiter)
            &&& token_of(t.coordinator.waiter_holders, h.waiter) == Some(h.token)
        } by {
        if let Some(h) = t.coordinator.queue(l).holder {
            assert(s.coordinator.queue(l).holder == Some(h));
            assert(s.sent(h.waiter, l, h.resource));
            if t.queued_with(l, h.waiter) {
                let now = t.coordinator.queue(l).waiters;
                let i = choose|i: int| 0 <= i < now.len() && (#[trigger] now[i]).id == h.waiter;
                if l == lock && i == was.len() {
                } else {
                    assert(s.coordinator.queue(l).waiters[i].id == h.waiter);
                    assert(s.queued_with(l, h.waiter));
                }
            }
        }
    }
}

/// An acquisition by the node keeps the session in order, and so does one that is handed
/// on.
proof fn lemma_grant_moves(s: SessionView, step: Step)
    requires
        s.in_order(),
        s.allows(Move::Coordinator(step)),
        step is Event || step == Step::Settle(false),
        !(step matches Step::Event(NodeEventView::Lost(_))),
    ensures
        s.moved(Move::Coordinator(step)).in_order(),
{
    reveal(SessionView::in_order);
    let t = s.moved(Move::Coordinator(step));
    s.coordinator.lemma_stepped_wf(step);
    assert forall|l: Seq<char>| #[trigger] part_of(
        t.coordinator.queue(l).waiters,
        s.coordinator.queue(l).waiters,
    ) by {
        let now = t.coordinator.queue(l).waiters;
        let was = s.coordinator.queue(l).waiters;
        if now != was {
            assert(was.skip(1) =~= was.remove(0));
        }
    }
    if let Some(o) = t.coordinator.offered {
        if s.coordinator.offered != t.coordinator.offered {
            let was = s.coordinator.queue(o.lock).waiters;
            assert(o.waiter == s.coordinator.queue(o.lock).waiters[0]);
            assert(t.coordinator.queue(o.lock).waiters == was.skip(1));
            if t.queued_with(o.lock, o.waiter.id) {
                let now = t.coordinator.queue(o.lock).waiters;
                let i = choose|i: int| 0 <= i < now.len() && (#[trigger] now[i]).id == o.waiter.id;
                assert(s.coordinator.queue(o.lock).waiters[i + 1].id == o.waiter.id);
            }
        }
    }
    assert forall|l: Seq<char>|
        (#[trigger] t.coordinator.queue(l)).holder matches Some(h) ==> {
            &&& s.sent(h.waiter, l, h.resource)
            &&& !t.queued_with(l, h.waiter)
            &&& !t.offered_with(h.waiter)
            &&& token_of(t.coordinator.waiter_holders, h.waiter) == Some(h.token)
        } by {
        if let Some(h) = t.coordinator.queue(l).holder {
            assert(s.coordinator.queue(l).holder == Some(h));
            assert(part_of(t.coordinator.queue(l).waiters, s.coordinator.queue(l).waiters));
            lemma_part_queued(s, t, l, h.waiter);
            if let Some(o) = t.coordinator.offered {
                if o.waiter.id == h.waiter && s.coordinator.offered != t.coordinator.offered {
                    assert(s.coordinator.queue(o.lock).waiters[0].id == h.waiter);
                    assert(s.queued_with(o.lock, h.waiter));
                    assert(s.sent(h.waiter, o.lock, o.waiter.resource));
                }
            }
        }
    }
    lemma_shrunk(s, t);
}

/// A waiter that takes what it is offered keeps the session in order.
proof fn lemma_taken_moves(s: SessionView)
    requires
        s.in_order(),
        s.allows(Move::Coordinator(Step::Settle(true))),
    ensures
        s.moved(Move::Coordinator(Step::Settle(true))).in_order(),
{
    reveal(SessionView::in_order);
    let t = s.moved(Move::Coordinator(Step::Settle(true)));
    s.coordinator.lemma_stepped_wf(Step::Settle(true));
    if let Some(o) = s.coordinator.offered {
        let k = s.coordinator;
        let rest = without_waiter(k.waiter_holders, o.waiter.id);
        assert forall|l: Seq<char>| #[trigger] part_of(
            t.coordinator.queue(l).waiters,
            s.coordinator.queue(l).waiters,
        ) by {}
        assert forall|l: Seq<char>|
            (#[trigger] t.coordinator.queue(l)).holder matches Some(h) ==> {
                &&& s.sent(h.waiter, l, h.resource)
                &&& !t.queued_with(l, h.waiter)
                &&& !t.offered_with(h.waiter)
                &&& token_of(t.coordinator.waiter_holders, h.waiter) == Some(h.token)
            } by {
            if let Some(h) = t.coordinator.queue(l).holder {
                assert(part_of(t.coordinator.queue(l).waiters, s.coordinator.queue(l).waiters));
                lemma_part_queued(s, t, l, h.waiter);
                lemma_token_pushed(rest, o.waiter.id, o.token, h.waiter);
                if l != o.lock {
                    assert(s.coordinator.queue(l).holder == Some(h));
                    assert(s.sent(h.waiter, l, h.resource));
                    lemma_token_without_waiter(k.waiter_holders, o.waiter.id, h.waiter);
                }
            }
        }
        lemma_shrunk(s, t);
    } else {
        assert(t == s);
    }
}

/// A lock that is lost keeps the session in order.
proof fn lemma_lost_moves(s: SessionView, lock: Seq<char>)
    requires
        s.in_order(),
        s.allows(Move::Coordinator(Step::Event(NodeEventView::Lost(lock)))),
    ensures
        s.moved(Move::Coordinator(Step::Event(NodeEventView::Lost(lock)))).in_order(),
{
    reveal(SessionView::in_order);
    let step = Step::Event(NodeEventView::Lost(lock));
    let t = s.moved(Move::Coordinator(step));
    s.coordinator.lemma_stepped_wf(step);
    assert forall|l: Seq<char>| #[trigger] part_of(
        t.coordinator.queue(l).waiters,
        s.coordinator.queue(l).waiters,
    ) by {}
    assert forall|l: Seq<char>|
        (#[trigger] t.coordinator.queue(l)).holder matches Some(h) ==> {
            &&& s.sent(h.waiter, l, h.resource)
            &&& !t.queued_with(l, h.waiter)
            &&& !t.offered_with(h.waiter)
            &&& token_of(t.coordinator.waiter_holders, h.waiter) == Some(h.token)
        } by {
        if let Some(h) = t.coordinator.queue(l).holder {
            assert(s.coordinator.queue(l).holder == Some(h));
            assert(part_of(t.coordinator.queue(l).waiters, s.coordinator.queue(l).waiters));
            lemma_part_queued(s, t, l, h.waiter);
            if let Some(g) = s.coordinator.queue(lock).holder {
                if l != lock {
                    assert(s.sent(g.waiter, lock, g.resource));
                    lemma_token_without_waiter(
                        s.coordinator.waiter_holders,
                        g.waiter,
                        h.waiter,
                    );
                }
            }
        }
    }
    lemma_shrunk(s, t);
}

/// A release keeps the session in order.
proof fn lemma_release_moves(s: SessionView, t: SessionView, lock: Option<Seq<char>>, token: Seq<char>)
    requires
        s.in_order(),
        s.coordinator.offered is None,
        t == (SessionView { coordinator: s.coordinator.release(lock, token).0, ..s }),
    ensures
        t.in_order(),
{
    reveal(SessionView::in_order);
    s.coordinator.lemma_release_wf(lock, token);
    assert forall|l: Seq<char>| #[trigger] part_of(
        t.coordinator.queue(l).waiters,
        s.coordinator.queue(l).waiters,
    ) by {}
    assert forall|l: Seq<char>|
        (#[trigger] t.coordinator.queue(l)).holder matches Some(h) ==> {
            &&& s.sent(h.waiter, l, h.resource)
            &&& !t.queued_with(l, h.waiter)
            &&& !t.offered_with(h.waiter)
            &&& token_of(t.coordinator.waiter_holders, h.waiter) == Some(h.token)
        } by {
        if let Some(h) = t.coordinator.queue(l).holder {
            assert(s.coordinator.queue(l).holder == Some(h));
            assert(part_of(t.coordinator.queue(l).waiters, s.coordinator.queue(l).waiters));
            lemma_part_queued(s, t, l, h.waiter);
            if s.coordinator.release_error(lock, token) is None {
                assert(s.coordinator.locks.map.contains_key(l));
                assert(h.token != token);
                lemma_token_without_token(s.coordinator.waiter_holders, token, h.waiter);
            }
        }
    }
    lemma_shrunk(s, t);
}

/// A request that is withdrawn keeps the session in order.
proof fn lemma_cancel_moves(s: SessionView, lock: Seq<char>, waiter: WaiterId)
    requires
        s.in_order(),
        s.coordinator.offered is None,
    ensures
        s.moved(Move::Coordinator(Step::Cancel { lock, waiter })).in_order(),
{
    let t = s.moved(Move::Coordinator(Step::Cancel { lock, waiter }));
    let was = s.coordinator.queue(lock).waiters;
    lemma_waiter_index(was, waiter);
    let x = waiter_index(was, waiter);
    if x < was.len() {
        reveal(SessionView::in_order);
        s.coordinator.lemma_cancel_wf(lock, waiter);
        assert forall|l: Seq<char>| #[trigger] part_of(
            t.coordinator.queue(l).waiters,
            s.coordinator.queue(l).waiters,
        ) by {
            if l == lock {
                assert(t.coordinator.queue(l).waiters == was.remove(x));
            }
        }
        assert forall|l: Seq<char>|
            (#[trigger] t.coordinator.queue(l)).holder matches Some(h) ==> {
                &&& s.sent(h.waiter, l, h.resource)
                &&& !t.queued_with(l, h.waiter)
                &&& !t.offered_with(h.waiter)
                &&& token_of(t.coordinator.waiter_holders, h.waiter) == Some(h.token)
            } by {
            if let Some(h) = t.coordinator.queue(l).holder {
                assert(s.coordinator.queue(l).holder == Some(h));
                assert(part_of(t.coordinator.queue(l).waiters, s.coordinator.queue(l).waiters));
                lemma_part_queued(s, t, l, h.waiter);
            }
        }
        lemma_shrunk(s, t);
    } else if let Some(token) = token_of(s.coordinator.waiter_holders, waiter) {
        lemma_release_moves(s, t, None, token);
    }
}

/// Moves keep the session in order, and what ids were used for.
proof fn lemma_moves(s: SessionView, m: Move)
    requires
        s.in_order(),
        s.allows(m),
    ensures
        s.moved(m).in_order(),
        forall|w: WaiterId| #[trigger]
            s.made.contains_key(w) ==> s.moved(m).made[w] == s.made[w] && s.moved(
                m,
            ).made.contains_key(w) && (s.moved(m).unsent.contains(w) ==> s.unsent.contains(w)),
{
    match m {
        Move::Client(step) => lemma_client_moves(s, step),
        Move::Coordinator(step) => match step {
            Step::Acquire { lock, waiter } => lemma_acquire_moves(s, lock, waiter),
            Step::Event(NodeEventView::Lost(lock)) => lemma_lost_moves(s, lock),
            Step::Event(_) => lemma_grant_moves(s, step),
            Step::Settle(taken) => if taken {
                lemma_taken_moves(s);
            } else {
                lemma_grant_moves(s, step);
            },
            Step::Release { lock, token } => lemma_release_moves(s, s.moved(m), lock, token),
            Step::Cancel { lock, waiter } => lemma_cancel_moves(s, lock, waiter),
        },
    }
}

/// **Sessions stay in order.** Whatever a new client and its coordinator do, every id that
/// the coordinator knows was used once, for what the coordinator knows it for, and is in
/// one place.
pub proof fn law_sessions_stay_in_order(moves: Seq<Move>)
    requires
        SessionView::fresh().allows_all(moves),
    ensures
        SessionView::fresh().after(moves).in_order(),
    decreases moves.len(),
{
    if moves.len() == 0 {
        reveal(SessionView::in_order);
        let s = SessionView::fresh();
        assert forall|l: Seq<char>| (#[trigger] s.coordinator.queue(l)).waiters.len() == 0
            && s.coordinator.queue(l).holder is None by {}
    } else {
        law_sessions_stay_in_order(moves.drop_last());
        lemma_moves(SessionView::fresh().after(moves.drop_last()), moves.last());
    }
}

/// **Ids keep their meaning.** Whatever happens after an id was used, it was used for what
/// it was used for, and a request that has reached the coordinator has.
pub proof fn law_ids_keep_their_meaning(s: SessionView, moves: Seq<Move>, w: WaiterId)
    requires
        s.in_order(),
        s.allows_all(moves),
        s.made.contains_key(w),
    ensures
        s.after(moves).in_order(),
        s.after(moves).made.contains_key(w),
        s.after(moves).made[w] == s.made[w],
        !s.unsent.contains(w) ==> !s.after(moves).unsent.contains(w),
    decreases moves.len(),
{
    if moves.len() > 0 {
        law_ids_keep_their_meaning(s, moves.drop_last(), w);
        lemma_moves(s.after(moves.drop_last()), moves.last());
    }
}

// ---- permits over a whole session ----------------------------------------------------------------
/// What a call waits for after it has heard this and that.
pub open spec fn still_waits(c: LockClientView, stage: StageView, heard: Seq<HeardView>) -> StageView
    decreases heard.len(),
{
    if heard.len() == 0 {
        stage
    } else {
        c.hear(still_waits(c, stage, heard.drop_last()), heard.last()).1.stage
    }
}

/// Every slot is one of `all`.
pub open spec fn slots_among(slots: Seq<SlotView>, all: Seq<SlotView>) -> bool {
    forall|i: int| 0 <= i < slots.len() ==> all.contains(#[trigger] slots[i])
}

/// Who waits for a permit waits for some of those it has asked for.
proof fn lemma_still_waits(
    c: LockClientView,
    name: Seq<char>,
    limit: u32,
    all: Seq<SlotView>,
    heard: Seq<HeardView>,
)
    ensures
        match still_waits(c, StageView::Semaphore { name, limit, pending: all }, heard) {
            StageView::Semaphore { name: n, limit: l, pending } => n == name && l == limit
                && slots_among(pending, all),
            StageView::Done(_) => true,
            _ => false,
        },
    decreases heard.len(),
{
    let start = StageView::Semaphore { name, limit, pending: all };
    if heard.len() == 0 {
        assert forall|i: int| 0 <= i < all.len() implies all.contains(#[trigger] all[i]) by {}
    } else {
        lemma_still_waits(c, name, limit, all, heard.drop_last());
        if let StageView::Semaphore { pending, .. } = still_waits(c, start, heard.drop_last()) {
            if let HeardView::Acquired(w, _) = heard.last() {
                lemma_slot_index(pending, w);
                let x = slot_index(pending, w);
                if x < pending.len() {
                    let rest = pending.remove(x);
                    assert forall|i: int| 0 <= i < rest.len() implies all.contains(
                        #[trigger] rest[i],
                    ) by {
                        let j = if i < x {
                            i
                        } else {
                            i + 1
                        };
                        assert(rest[i] == pending[j]);
                    }
                }
            }
        }
    }
}

/// What an id was used for is all that it queues for.
proof fn lemma_queues_for(s: SessionView, w: WaiterId)
    requires
        s.in_order(),
        s.made.contains_key(w),
    ensures
        queues_for(s.coordinator, w, s.made[w].0, s.made[w].1),
{
    reveal(SessionView::in_order);
    let k = s.coordinator;
    assert forall|l: Seq<char>, i: int|
        k.locks.map.contains_key(l) && 0 <= i < k.locks.map[l].waiters.len() && (
        #[trigger] k.locks.map[l].waiters[i]).id == w implies l == s.made[w].0
        && k.locks.map[l].waiters[i].resource == s.made[w].1 by {
        assert(k.queue(l).waiters[i].id == w);
    }
}

/// The ids of a semaphore call are used for its permits.
proof fn lemma_permits_made(s: SessionView, name: Seq<char>, limit: u32, p: int)
    requires
        s.in_order(),
        s.allows(Move::Client(ClientStep::AcquireSemaphore { name, limit })),
        bounded_error(name, limit) is None,
        0 <= p < limit,
    ensures
        ({
            let t = s.moved(Move::Client(ClientStep::AcquireSemaphore { name, limit }));
            let slot = s.client.slots(SlotKind::Permit, name, limit)[p];
            &&& slot.permit == p
            &&& t.made.contains_key(slot.waiter)
            &&& t.made[slot.waiter] == (
                slot.lock,
                slot_resource(SlotKind::Permit, name, limit, slot.permit),
            )
            &&& slot.lock == slot_lock(SlotKind::Permit, name, limit, slot.permit)
        }),
{
    let step = ClientStep::AcquireSemaphore { name, limit };
    let asks = s.client.called(step).1.asks;
    let slot = s.client.slots(SlotKind::Permit, name, limit)[p];
    let w = slot.waiter;
    assert(asks == s.client.slot_asks(SlotKind::Permit, name, limit));
    assert(asks_at(asks, p, w));
    lemma_ids(s.client, step, w);
    let i = choose|i: int| 0 <= i < asks.len() && asks_at(asks, i, w);
    assert(asks_at(asks, i, w));
    assert(i == p);
}

/// **Every permit of a semaphore has one holder.** In a session let a client ask for a
/// permit, after anything and before anything, and let it have heard anything but of a
/// permit. If it is then offered a lock under one of the ids that it waits with, and takes
/// it, the call is over: it has a permit below the limit, of the semaphore with that name
/// and limit; the token that it gets holds the lock of that permit; no other token that
/// holds a permit of that semaphore holds the same; and the requests that it still waits
/// for are withdrawn.
pub proof fn law_every_permit_has_one_holder(
    before: Seq<Move>,
    name: Seq<char>,
    limit: u32,
    later: Seq<Move>,
    heard: Seq<HeardView>,
) -> (i: int)
    requires
        SessionView::fresh().allows_all(before),
        SessionView::fresh().after(before).allows(
            Move::Client(ClientStep::AcquireSemaphore { name, limit }),
        ),
        SessionView::fresh().after(before).moved(
            Move::Client(ClientStep::AcquireSemaphore { name, limit }),
        ).allows_all(later),
        bounded_error(name, limit) is None,
        ({
            let s = SessionView::fresh().after(before);
            let call = s.client.acquire_semaphore(name, limit).1;
            let k = s.moved(Move::Client(ClientStep::AcquireSemaphore { name, limit })).after(
                later,
            ).coordinator;
            &&& still_waits(s.client, call.stage, heard) matches StageView::Semaphore {
                pending,
                ..
            } && waits_with(pending, k)
        }),
    ensures
        ({
            let s = SessionView::fresh().after(before);
            let call = s.client.acquire_semaphore(name, limit).1;
            let stage = still_waits(s.client, call.stage, heard);
            let t = s.moved(Move::Client(ClientStep::AcquireSemaphore { name, limit })).after(
                later,
            );
            let o = t.coordinator.offered->0;
            let d = t.coordinator.settle(true).0;
            let next = t.client.hear(stage, HeardView::Acquired(o.waiter.id, Ok(o.acquired()))).1;
            &&& stage matches StageView::Semaphore { pending, .. } && {
                &&& 0 <= i < pending.len()
                &&& slots_among(pending, s.client.slots(SlotKind::Permit, name, limit))
                &&& next.asks == cancellations(pending.remove(i))
                &&& next.stage matches StageView::Done(Ok(AnswerView::Semaphore(a))) && {
                    &&& a.semaphore == name
                    &&& a.limit == limit
                    &&& a.permit == pending[i].permit
                    &&& a.permit < limit
                    &&& a.fence == o.fence
                    &&& has_slot(d, SlotKind::Permit, name, limit, a.holder, a.permit)
                    &&& forall|token: Seq<char>, p: u32|
                        token != a.holder && #[trigger] has_slot(
                            d,
                            SlotKind::Permit,
                            name,
                            limit,
                            token,
                            p,
                        ) ==> p != a.permit
                }
            }
        }),
{
    let step = Move::Client(ClientStep::AcquireSemaphore { name, limit });
    let s = SessionView::fresh().after(before);
    let all = s.client.slots(SlotKind::Permit, name, limit);
    let first = s.moved(step);
    let t = first.after(later);
    law_sessions_stay_in_order(before);
    lemma_moves(s, step);
    let start = StageView::Semaphore { name, limit, pending: all };
    assert(s.client.acquire_semaphore(name, limit).1.stage == start);
    lemma_still_waits(s.client, name, limit, all, heard);
    let pending = still_waits(s.client, start, heard)->Semaphore_pending;
    assert forall|j: int| 0 <= j < pending.len() implies (#[trigger] pending[j]).permit < limit
        && pending[j].lock == slot_lock(SlotKind::Permit, name, limit, pending[j].permit)
        && queues_for(
        t.coordinator,
        pending[j].waiter,
        pending[j].lock,
        slot_resource(SlotKind::Permit, name, limit, pending[j].permit),
    ) by {
        let p = all.index_of(pending[j]);
        assert(all.contains(pending[j]));
        lemma_permits_made(s, name, limit, p);
        law_ids_keep_their_meaning(first, later, pending[j].waiter);
        lemma_queues_for(t, pending[j].waiter);
    }
    assert(slots_of(SlotKind::Permit, name, limit, pending));
    assert(t.in_order()) by {
        lemma_permits_made(s, name, limit, 0);
        law_ids_keep_their_meaning(first, later, all[0].waiter);
    }
    assert(t.coordinator.wf()) by {
        reveal(SessionView::in_order);
    }
    law_permits_are_distinct(t.client, name, limit, pending, t.coordinator)
}

/// The lock that is being handed over is offered to one of those that are waited for.
pub open spec fn waits_with(pending: Seq<SlotView>, k: CoordinatorView) -> bool {
    k.offered is Some && exists|j: int|
        0 <= j < pending.len() && (#[trigger] pending[j]).waiter == k.offered->0.waiter.id
}

// ---- what is withdrawn ----------------------------------------------------------------------------
/// What is withdrawn is neither waited for nor held.
proof fn lemma_withdrawn(s: SessionView, w: WaiterId)
    requires
        s.in_order(),
        s.coordinator.offered is None,
        s.made.contains_key(w),
        !s.unsent.contains(w),
    ensures
        s.moved(Move::Coordinator(Step::Cancel { lock: s.made[w].0, waiter: w })).gone(w),
{
    reveal(SessionView::in_order);
    let lock = s.made[w].0;
    let k = s.coordinator;
    let t = s.moved(Move::Coordinator(Step::Cancel { lock, waiter: w }));
    let was = k.queue(lock).waiters;
    let x = waiter_index(was, w);
    lemma_waiter_index(was, w);
    assert forall|l: Seq<char>| !#[trigger] t.queued_with(l, w) by {
        let now = t.coordinator.queue(l).waiters;
        if t.queued_with(l, w) {
            let i = choose|i: int| 0 <= i < now.len() && (#[trigger] now[i]).id == w;
            if l == lock {
                if x < was.len() {
                    assert(now == was.remove(x));
                    let j = if i < x {
                        i
                    } else {
                        i + 1
                    };
                    assert(k.queue(l).waiters[j].id == w);
                    assert(k.queue(l).waiters[x].id == w);
                } else {
                    assert(k.queue(l).waiters[i].id == w);
                }
            } else {
                assert(k.queue(l).waiters[i].id == w);
            }
        }
    }
    assert forall|l: Seq<char>| !#[trigger] t.holds_with(l, w) by {
        if t.holds_with(l, w) {
            let h = k.queue(l).holder->0;
            assert(t.coordinator.queue(l).holder == Some(h));
            assert(s.sent(h.waiter, l, h.resource));
            assert(l == lock);
            if x < was.len() {
                assert(k.queue(l).waiters[x].id == w);
                assert(s.queued_with(l, w));
            } else {
                assert(k.locks.map.contains_key(l));
                assert(k.holders.get(h.token) == Some(l));
            }
        }
    }
}

/// Who is gone stays gone.
proof fn lemma_gone(s: SessionView, m: Move, w: WaiterId)
    requires
        s.in_order(),
        s.allows(m),
        s.gone(w),
    ensures
        s.moved(m).gone(w),
{
    lemma_moves(s, m);
    let t = s.moved(m);
    match m {
        Move::Client(step) => {
            lemma_client_moves(s, step);
            assert forall|l: Seq<char>| !#[trigger] t.queued_with(l, w) by {
                assert(!s.queued_with(l, w));
            }
            assert forall|l: Seq<char>| !#[trigger] t.holds_with(l, w) by {
                assert(!s.holds_with(l, w));
            }
        },
        Move::Coordinator(step) => {
            assert forall|l: Seq<char>| !#[trigger] t.queued_with(l, w) by {
                assert(!s.queued_with(l, w));
                if t.queued_with(l, w) {
                    let now = t.coordinator.queue(l).waiters;
                    let i = choose|i: int| 0 <= i < now.len() && (#[trigger] now[i]).id == w;
                    assert(s.coordinator.wf()) by {
                        reveal(SessionView::in_order);
                    }
                    lemma_waiters_stepped(s.coordinator, step, l, i);
                    let was = s.coordinator.queue(l).waiters;
                    if exists|j: int| 0 <= j < was.len() && now[i] == #[trigger] was[j] {
                        let j = choose|j: int| 0 <= j < was.len() && now[i] == #[trigger] was[j];
                        assert(s.coordinator.queue(l).waiters[j].id == w);
                    }
                }
            }
            assert forall|l: Seq<char>| !#[trigger] t.holds_with(l, w) by {
                assert(!s.holds_with(l, w));
            }
            if let Some(o) = t.coordinator.offered {
                if t.coordinator.offered != s.coordinator.offered && o.waiter.id == w {
                    assert(s.coordinator.queue(o.lock).waiters[0].id == w);
                    assert(s.queued_with(o.lock, w));
                }
            }
        },
    }
}

/// **What is withdrawn is gone for good.** Once the coordinator has got a request, and then
/// its withdrawal, the request's id neither waits for nor is offered nor holds anything,
/// whatever happened before, in between and since.
pub proof fn law_withdrawn_requests_are_gone(s: SessionView, moves: Seq<Move>, x: int, w: WaiterId)
    requires
        s.in_order(),
        s.allows_all(moves),
        s.made.contains_key(w),
        !s.unsent.contains(w),
        0 <= x < moves.len(),
        moves[x] == Move::Coordinator(Step::Cancel { lock: s.made[w].0, waiter: w }),
    ensures
        s.after(moves).in_order(),
        s.after(moves).gone(w),
    decreases moves.len(),
{
    let init = moves.drop_last();
    let t = s.after(init);
    law_ids_keep_their_meaning(s, init, w);
    law_ids_keep_their_meaning(s, moves, w);
    if x == moves.len() - 1 {
        lemma_withdrawn(t, w);
    } else {
        law_withdrawn_requests_are_gone(s, init, x, w);
        lemma_gone(t, moves.last(), w);
    }
}

/// **A semaphore call keeps one permit.** The ids with which a call asks for the permits of
/// a semaphore are one for each permit and differ. Once the coordinator has got such a
/// request and its withdrawal, that id holds nothing and never will: so with the others
/// withdrawn, as [`law_every_permit_has_one_holder`] says, the caller keeps the permit that
/// it was told of and no other.
pub proof fn law_other_permits_are_given_up(
    before: Seq<Move>,
    name: Seq<char>,
    limit: u32,
    later: Seq<Move>,
    x: int,
    p: u32,
    q: u32,
)
    requires
        SessionView::fresh().allows_all(before),
        SessionView::fresh().after(before).allows(
            Move::Client(ClientStep::AcquireSemaphore { name, limit }),
        ),
        SessionView::fresh().after(before).moved(
            Move::Client(ClientStep::AcquireSemaphore { name, limit }),
        ).allows_all(later),
        bounded_error(name, limit) is None,
        p < limit,
        q < limit,
        p != q,
        ({
            let s = SessionView::fresh().after(before);
            let slot = s.client.slots(SlotKind::Permit, name, limit)[p as int];
            &&& 0 <= x < later.len()
            &&& later[x] == Move::Coordinator(
                Step::Cancel { lock: slot.lock, waiter: slot.waiter },
            )
            &&& !s.moved(Move::Client(ClientStep::AcquireSemaphore { name, limit })).after(
                later.take(x),
            ).unsent.contains(slot.waiter)
        }),
    ensures
        ({
            let s = SessionView::fresh().after(before);
            let slots = s.client.slots(SlotKind::Permit, name, limit);
            &&& slots[p as int].waiter != slots[q as int].waiter
            &&& s.moved(Move::Client(ClientStep::AcquireSemaphore { name, limit })).after(
                later,
            ).gone(slots[p as int].waiter)
        }),
{
    let step = ClientStep::AcquireSemaphore { name, limit };
    let s = SessionView::fresh().after(before);
    let slots = s.client.slots(SlotKind::Permit, name, limit);
    let w = slots[p as int].waiter;
    let first = s.moved(Move::Client(step));
    law_sessions_stay_in_order(before);
    lemma_moves(s, Move::Client(step));
    lemma_permits_made(s, name, limit, p as int);
    let asks = s.client.called(step).1.asks;
    assert(asks == s.client.slot_asks(SlotKind::Permit, name, limit));
    assert(asks_at(asks, p as int, w));
    lemma_ids(s.client, step, w);
    if slots[q as int].waiter == w {
        assert(asks_at(asks, q as int, w));
    }
    lemma_cut_run(first, later, x);
    let t = first.after(later.take(x));
    law_ids_keep_their_meaning(first, later.take(x), w);
    law_withdrawn_requests_are_gone(t, later.skip(x), 0, w);
}

/// A run goes on from where it was.
proof fn lemma_cut_run(s: SessionView, moves: Seq<Move>, x: int)
    requires
        0 <= x < moves.len(),
        s.allows_all(moves),
    ensures
        s.allows_all(moves.take(x)),
        s.after(moves.take(x)).allows_all(moves.skip(x)),
        s.after(moves.take(x)).after(moves.skip(x)) == s.after(moves),
    decreases moves.len(),
{
    let init = moves.drop_last();
    assert(init.take(x) =~= moves.take(x));
    assert(moves.skip(x).drop_last() =~= init.skip(x));
    assert(moves.skip(x).last() == moves.last());
    if x < init.len() {
        lemma_cut_run(s, init, x);
    } else {
        assert(init.take(x) =~= init);
        assert(init.skip(x) =~= Seq::empty());
    }
}

} // verus!
