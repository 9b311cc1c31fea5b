//! What holds of holder tokens, over client and coordinator together.
use vstd::prelude::*;

use crate::client_api::{
    asking, bounded_error, cancellations, lemma_slot_index, over, rw_token, slot_index,
    slot_resource, slots_of, stage_wf, AnswerView, AskView, CallView, ClientError, HeardView, HeldView,
    LockClientView, ReleaseView, ResourceView, SlotKind, SlotView, StageView, WaiterId,
};
use crate::coordinator::{
    holder_token, law_one_token_per_lock, lemma_waiter_index, waiter_index,
    CoordinatorView, WaiterView,
};
use crate::slots::{
    all_back, first_failure, has_slot, law_release_gives_everything_back, law_rw_tokens_differ, run,
};
use crate::transport::NodeEventView;

verus! {

/// Something that happens to a coordinator.
pub enum Step {
    Acquire { lock: Seq<char>, waiter: WaiterView },
    Event(NodeEventView),
    Settle(bool),
    Release { lock: Option<Seq<char>>, token: Seq<char> },
    Cancel { lock: Seq<char>, waiter: WaiterId },
}

impl CoordinatorView {
    /// The step can be taken: an offer is settled before anything else happens, and
    /// there are tokens left.
    pub open spec fn allows(self, step: Step) -> bool {
        match step {
            Step::Acquire { lock, .. } => self.offered is None && lock.len() > 0,
            Step::Event(_) => self.offered is None && self.next_holder < u64::MAX,
            Step::Settle(_) => self.next_holder < u64::MAX,
            Step::Release { .. } => self.offered is None,
            Step::Cancel { .. } => self.offered is None,
        }
    }

    /// The coordinator after a step.
    pub open spec fn stepped(self, step: Step) -> CoordinatorView {
        match step {
            Step::Acquire { lock, waiter } => self.acquire(lock, waiter).0,
            Step::Event(ev) => self.on_event(ev).0,
            Step::Settle(taken) => self.settle(taken).0,
            Step::Release { lock, token } => self.release(lock, token).0,
            Step::Cancel { lock, waiter } => self.cancel(lock, waiter).0,
        }
    }

    /// The coordinator after steps.
    pub open spec fn after(self, steps: Seq<Step>) -> CoordinatorView
        decreases steps.len(),
    {
        if steps.len() == 0 {
            self
        } else {
            self.after(steps.drop_last()).stepped(steps.last())
        }
    }

    /// Every one of the steps can be taken when it is its turn.
    pub open spec fn allows_all(self, steps: Seq<Step>) -> bool
        decreases steps.len(),
    {
        steps.len() > 0 ==> self.allows_all(steps.drop_last()) && self.after(
            steps.drop_last(),
        ).allows(steps.last())
    }

    /// `token` is used up: it was given out, and it neither holds anything nor is on its
    /// way to somebody.
    pub open spec fn used_up(self, token: Seq<char>) -> bool {
        &&& self.issued(token)
        &&& !self.holders.map.contains_key(token)
        &&& self.offered matches Some(o) ==> o.token != token
    }

    /// Steps keep the state well-formed.
    pub proof fn lemma_stepped_wf(self, step: Step)
        requires
            self.wf(),
            self.allows(step),
        ensures
            self.stepped(step).wf(),
    {
        match step {
            Step::Acquire { lock, waiter } => self.lemma_acquire_wf(lock, waiter),
            Step::Event(ev) => self.lemma_event_wf(ev),
            Step::Settle(taken) => self.lemma_settle_wf(taken),
            Step::Release { lock, token } => self.lemma_release_wf(lock, token),
            Step::Cancel { lock, waiter } => self.lemma_cancel_wf(lock, waiter),
        }
    }

    proof fn lemma_used_up(self, step: Step, token: Seq<char>)
        requires
            self.wf(),
            self.allows(step),
            self.used_up(token),
        ensures
            self.stepped(step).used_up(token),
    {
        let n = choose|n: nat| 0 < n < self.next_holder && token == #[trigger] holder_token(n);
        assert(token == holder_token(n));
        self.lemma_next_token_fresh();
    }
}

/// **A used token stays used.** Whatever happens, a token that was given out and no
/// longer holds anything never holds anything again, and every release with it is
/// answered `NotHeld`.
pub proof fn law_used_tokens_stay_used(
    k: CoordinatorView,
    token: Seq<char>,
    steps: Seq<Step>,
    lock: Option<Seq<char>>,
)
    requires
        k.wf(),
        k.used_up(token),
        k.allows_all(steps),
    ensures
        k.after(steps).wf(),
        k.after(steps).used_up(token),
        k.after(steps).held_lock(token) is None,
        k.after(steps).release(lock, token).1 == Err::<ReleaseView, ClientError>(
            ClientError::NotHeld,
        ),
    decreases steps.len(),
{
    if steps.len() > 0 {
        law_used_tokens_stay_used(k, token, steps.drop_last(), lock);
        k.after(steps.drop_last()).lemma_stepped_wf(steps.last());
        k.after(steps.drop_last()).lemma_used_up(steps.last(), token);
    }
}

/// **Whoever takes what it is offered holds it.** The token that a waiter is given holds
/// the lock that the waiter was offered, for the resource that it asked for.
pub proof fn law_taken_is_held(k: CoordinatorView)
    requires
        k.wf(),
        k.offered is Some,
    ensures
        ({
            let o = k.offered->0;
            let d = k.settle(true).0;
            &&& o.acquired().holder == o.token
            &&& d.offered is None
            &&& d.held_lock(o.token) == Some(o.lock)
            &&& d.queue(o.lock).holder->0.resource == o.waiter.resource
        }),
{
}

/// What the client makes of the coordinator's answer to a release.
pub open spec fn answered(answer: Result<ReleaseView, ClientError>) -> CallView {
    over(
        match answer {
            Ok(r) => Ok(AnswerView::Release(r)),
            Err(e) => Err(e),
        },
    )
}

/// **A lock or a permit is released once.** The release with the token that holds it
/// succeeds, names the resource, and takes the lock from its holder; a second release
/// with that token is answered `NotHeld`, whatever happened in between.
pub proof fn law_released_once(
    c: LockClientView,
    k: CoordinatorView,
    token: Seq<char>,
    steps: Seq<Step>,
    d: LockClientView,
)
    requires
        c.wf(),
        d.wf(),
        k.wf(),
        k.offered is None,
        k.held_lock(token) is Some,
        k.release(None, token).0.allows_all(steps),
    ensures
        ({
            let lock = k.held_lock(token)->0;
            let answer = Ok::<ReleaseView, ClientError>(k.queue(lock).holder->0.resource.release());
            let k1 = k.release(None, token).0;
            let k2 = k1.after(steps);
            let refused = Err::<ReleaseView, ClientError>(ClientError::NotHeld);
            &&& c.release(token) == (
                c,
                asking(StageView::Release, AskView::Release { lock: None, holder: token }),
            )
            &&& k.release(None, token).1 == answer
            &&& c.hear(StageView::Release, HeardView::Released(answer)) == (c, answered(answer))
            &&& k1.held_lock(token) is None
            &&& k1.queue(lock).holder is None
            &&& d.release(token) == (
                d,
                asking(StageView::Release, AskView::Release { lock: None, holder: token }),
            )
            &&& k2.release(None, token).1 == refused
            &&& d.hear(StageView::Release, HeardView::Released(refused)) == (d, answered(refused))
        }),
{
    let lock = k.held_lock(token)->0;
    let k1 = k.release(None, token).0;
    assert(k.holders.map.contains_key(token));
    assert(k.issued(token));
    let n = choose|n: nat| 0 < n < k.next_holder && token == #[trigger] holder_token(n);
    lemma_no_bundle(c, n);
    lemma_no_bundle(d, n);
    k.lemma_release_wf(None, token);
    assert(token == holder_token(n));
    assert(k1.used_up(token));
    law_used_tokens_stay_used(k1, token, steps, None);
}

/// A token of the coordinator is none of an RW lock.
proof fn lemma_no_bundle(c: LockClientView, n: nat)
    requires
        c.wf(),
        n <= u64::MAX,
    ensures
        !c.bundles.map.contains_key(holder_token(n)),
{
    if c.bundles.map.contains_key(holder_token(n)) {
        let m = choose|m: u64| holder_token(n) == #[trigger] rw_token(m as nat);
        law_rw_tokens_differ(n, m as nat);
    }
}

/// **Nobody releases with a token that was never given out.** It is answered `NotHeld`,
/// and nothing changes.
pub proof fn law_unknown_tokens_are_refused(
    c: LockClientView,
    k: CoordinatorView,
    token: Seq<char>,
)
    requires
        c.wf(),
        k.wf(),
        !c.bundles.map.contains_key(token),
        !k.issued(token),
    ensures
        ({
            let refused = Err::<ReleaseView, ClientError>(ClientError::NotHeld);
            &&& c.release(token) == (
                c,
                asking(StageView::Release, AskView::Release { lock: None, holder: token }),
            )
            &&& k.release(None, token).0 == k
            &&& k.release(None, token).1 == refused
            &&& c.hear(StageView::Release, HeardView::Released(refused)) == (c, answered(refused))
        }),
{
}

// ---- RW locks -------------------------------------------------------------------------------
/// Something that a client does or hears.
pub enum ClientStep {
    Acquire { lock: Seq<char> },
    AcquireSemaphore { name: Seq<char>, limit: u32 },
    AcquireRead { name: Seq<char>, limit: u32 },
    AcquireWrite { name: Seq<char>, limit: u32 },
    Release { holder: Seq<char> },
    ReleaseLock { lock: Seq<char>, holder: Seq<char> },
    ReleaseRwLock { name: Seq<char>, holder: Seq<char> },
    Hear { stage: StageView, heard: HeardView },
}

impl LockClientView {
    /// What a step makes of the client, and the call that it begins or goes on with.
    pub open spec fn called(self, step: ClientStep) -> (LockClientView, CallView) {
        match step {
            ClientStep::Acquire { lock } => self.acquire(lock),
            ClientStep::AcquireSemaphore { name, limit } => self.acquire_semaphore(name, limit),
            ClientStep::AcquireRead { name, limit } => self.acquire_read(name, limit),
            ClientStep::AcquireWrite { name, limit } => self.acquire_write(name, limit),
            ClientStep::Release { holder } => self.release(holder),
            ClientStep::ReleaseLock { lock, holder } => self.release_lock(lock, holder),
            ClientStep::ReleaseRwLock { name, holder } => self.release_rw_lock(name, holder),
            ClientStep::Hear { stage, heard } => self.hear(stage, heard),
        }
    }

    /// The client after a step.
    pub open spec fn stepped(self, step: ClientStep) -> LockClientView {
        self.called(step).0
    }

    /// The client after steps.
    pub open spec fn after(self, steps: Seq<ClientStep>) -> LockClientView
        decreases steps.len(),
    {
        if steps.len() == 0 {
            self
        } else {
            self.after(steps.drop_last()).stepped(steps.last())
        }
    }

    /// Every one of the steps can be taken when it is its turn: calls are in order, and
    /// there are tokens of RW locks left.
    pub open spec fn allows_all(self, steps: Seq<ClientStep>) -> bool
        decreases steps.len(),
    {
        steps.len() > 0 ==> {
            &&& self.allows_all(steps.drop_last())
            &&& self.after(steps.drop_last()).next_rw_holder < u64::MAX
            &&& steps.last() matches ClientStep::Hear { stage, .. } ==> stage_wf(stage)
        }
    }

    /// `token` was given out for a side of an RW lock.
    pub open spec fn gave_out(self, token: Seq<char>) -> bool {
        exists|n: u64| n < self.next_rw_holder && token == #[trigger] rw_token(n as nat)
    }

    /// In order, and every side that is held has a token that was given out.
    pub open spec fn counted(self) -> bool {
        &&& self.wf()
        &&& forall|t: Seq<char>| #[trigger]
            self.bundles.map.contains_key(t) ==> self.gave_out(t)
    }

    /// `token` is used up: it was given out for a side of an RW lock and holds none.
    pub open spec fn used_up(self, token: Seq<char>) -> bool {
        self.gave_out(token) && !self.bundles.map.contains_key(token)
    }

    /// Steps keep the tokens in order.
    proof fn lemma_stepped(self, step: ClientStep, token: Seq<char>)
        requires
            self.counted(),
            self.next_rw_holder < u64::MAX,
            step matches ClientStep::Hear { stage, .. } ==> stage_wf(stage),
        ensures
            self.stepped(step).counted(),
            self.used_up(token) ==> self.stepped(step).used_up(token),
    {
        let d = self.stepped(step);
        match step {
            ClientStep::Hear { stage, heard } => self.lemma_hear_wf(stage, heard),
            ClientStep::Release { holder } => if self.bundles.map.contains_key(holder) {
                self.lemma_give_back_wf(holder);
            },
            ClientStep::ReleaseRwLock { holder, .. } => if self.bundles.map.contains_key(holder) {
                self.lemma_give_back_wf(holder);
            },
            _ => {},
        }
        let next = rw_token(self.next_rw_holder as nat);
        assert(d.next_rw_holder >= self.next_rw_holder);
        assert forall|t: Seq<char>| #[trigger] self.gave_out(t) implies d.gave_out(t) && t != next by {
            let n = choose|n: u64| n < self.next_rw_holder && t == #[trigger] rw_token(n as nat);
            law_rw_tokens_differ(n as nat, self.next_rw_holder as nat);
            assert(t == rw_token(n as nat));
        }
        assert forall|t: Seq<char>| #[trigger] d.bundles.map.contains_key(t) implies d.gave_out(
            t,
        ) by {
            if self.bundles.map.contains_key(t) {
                assert(self.gave_out(t));
            } else {
                assert(t == rw_token(self.next_rw_holder as nat));
                assert(d.next_rw_holder == self.next_rw_holder + 1);
            }
        }
    }
}

/// **A used token of an RW lock stays used.** Whatever the client does and hears, a token
/// that was given out and stands for no side of an RW lock never stands for one again.
pub proof fn law_used_rw_tokens_stay_used(
    c: LockClientView,
    token: Seq<char>,
    steps: Seq<ClientStep>,
)
    requires
        c.counted(),
        c.used_up(token),
        c.allows_all(steps),
    ensures
        c.after(steps).counted(),
        c.after(steps).used_up(token),
    decreases steps.len(),
{
    if steps.len() > 0 {
        law_used_rw_tokens_stay_used(c, token, steps.drop_last());
        c.after(steps.drop_last()).lemma_stepped(steps.last(), token);
    }
}

/// **Tokens are counted from the start.** Whatever a new client does and hears, every side
/// of an RW lock that it holds has a token that it has given out.
pub proof fn law_rw_tokens_are_counted(steps: Seq<ClientStep>)
    requires
        LockClientView::fresh().allows_all(steps),
    ensures
        LockClientView::fresh().after(steps).counted(),
    decreases steps.len(),
{
    if steps.len() > 0 {
        law_rw_tokens_are_counted(steps.drop_last());
        LockClientView::fresh().after(steps.drop_last()).lemma_stepped(steps.last(), Seq::empty());
    }
}

/// **A side of an RW lock is released once.** While its locks are held, the release with
/// its token gives back every one of them and succeeds, naming the RW lock; a second
/// release with that token is answered `NotHeld`, whatever the client did and heard in
/// between. Each lock is given back to the coordinator as it then is: other clients may
/// do what they like.
pub proof fn law_rw_released_once(
    c: LockClientView,
    token: Seq<char>,
    ks: Seq<CoordinatorView>,
    steps: Seq<ClientStep>,
    k: CoordinatorView,
)
    requires
        c.counted(),
        c.bundles.map.contains_key(token),
        ks.len() == c.bundles.map[token].parts.len(),
        forall|i: int|
            0 <= i < ks.len() ==> (#[trigger] ks[i]).wf() && ks[i].held_lock(
                c.bundles.map[token].parts[i].holder,
            ) == Some(c.bundles.map[token].parts[i].lock),
        c.release(token).0.allows_all(steps),
        k.wf(),
    ensures
        ({
            let bundle = c.bundles.map[token];
            let heard = part_answers(bundle.parts, ks);
            let d = c.release(token).0.after(steps);
            let refused = Err::<ReleaseView, ClientError>(ClientError::NotHeld);
            &&& !c.release(token).0.bundles.map.contains_key(token)
            &&& run(c.release(token).0, c.release(token).1, heard) == (
                StageView::Done(Ok(AnswerView::Release(bundle.release()))),
                all_back(bundle.parts),
            )
            &&& forall|i: int|
                0 <= i < ks.len() ==> (#[trigger] ks[i]).release(
                    Some(bundle.parts[i].lock),
                    bundle.parts[i].holder,
                ).0.held_lock(bundle.parts[i].holder) is None
            &&& d.release(token) == (
                d,
                asking(StageView::Release, AskView::Release { lock: None, holder: token }),
            )
            &&& k.release(None, token).1 == refused
            &&& d.hear(StageView::Release, HeardView::Released(refused)) == (d, answered(refused))
        }),
{
    let bundle = c.bundles.map[token];
    let heard = part_answers(bundle.parts, ks);
    assert forall|i: int| 0 <= i < ks.len() implies (#[trigger] ks[i]).release(
        Some(bundle.parts[i].lock),
        bundle.parts[i].holder,
    ).1 is Ok by {
        assert(ks[i].wf());
    }
    lemma_all_fine(heard);
    law_release_gives_everything_back(c, token, heard);
    let released = c.release(token).0;
    let d = released.after(steps);
    c.lemma_give_back_wf(token);
    assert(c.gave_out(token));
    assert forall|t: Seq<char>| #[trigger] c.gave_out(t) implies released.gave_out(t) by {
        let n = choose|n: u64| n < c.next_rw_holder && t == #[trigger] rw_token(n as nat);
        assert(t == rw_token(n as nat));
    }
    assert forall|t: Seq<char>| #[trigger]
        released.bundles.map.contains_key(t) implies released.gave_out(t) by {
        assert(c.bundles.map.contains_key(t));
    }
    law_used_rw_tokens_stay_used(released, token, steps);
    let m = choose|m: u64| m < d.next_rw_holder && token == #[trigger] rw_token(m as nat);
    if k.holders.map.contains_key(token) {
        assert(k.issued(token));
        let n = choose|n: nat| 0 < n < k.next_holder && token == #[trigger] holder_token(n);
        law_rw_tokens_differ(n, m as nat);
    }
}

/// What the coordinator answers to the releases of the parts.
pub open spec fn part_answers(
    parts: Seq<HeldView>,
    ks: Seq<CoordinatorView>,
) -> Seq<HeardView> {
    Seq::new(
        parts.len(),
        |i: int| HeardView::Released(ks[i].release(Some(parts[i].lock), parts[i].holder).1),
    )
}

/// Where nothing fails there is no first failure.
proof fn lemma_all_fine(heard: Seq<HeardView>)
    requires
        forall|i: int|
            0 <= i < heard.len() ==> (#[trigger] heard[i] matches HeardView::Released(Ok(_))),
    ensures
        first_failure(heard) is None,
    decreases heard.len(),
{
    if heard.len() > 0 {
        assert(heard[0] matches HeardView::Released(Ok(_)));
        assert forall|i: int| 0 <= i < heard.skip(1).len() implies (
        #[trigger] heard.skip(1)[i] matches HeardView::Released(Ok(_))) by {
            assert(heard.skip(1)[i] == heard[i + 1]);
        }
        lemma_all_fine(heard.skip(1));
    }
}

// ---- permits -----------------------------------------------------------------------------------
/// `waiter` queues for `lock` and nothing else, to hold `resource`.
pub open spec fn queues_for(
    k: CoordinatorView,
    waiter: WaiterId,
    lock: Seq<char>,
    resource: ResourceView,
) -> bool {
    &&& forall|l: Seq<char>, i: int|
        k.locks.map.contains_key(l) && 0 <= i < k.locks.map[l].waiters.len() && (
        #[trigger] k.locks.map[l].waiters[i]).id == waiter ==> l == lock
            && k.locks.map[l].waiters[i].resource == resource
    &&& k.offered matches Some(o) ==> (o.waiter.id == waiter ==> o.lock == lock
        && o.waiter.resource == resource)
}

/// **Waiters are offered what they asked for.** A waiter that queues for a lock, and for
/// nothing else, is offered that lock and nothing else, whatever happens.
pub proof fn law_waiters_get_what_they_ask_for(
    k: CoordinatorView,
    step: Step,
    waiter: WaiterId,
    lock: Seq<char>,
    resource: ResourceView,
)
    requires
        k.wf(),
        k.allows(step),
        queues_for(k, waiter, lock, resource),
        step matches Step::Acquire { lock: l, waiter: w } ==> (w.id == waiter ==> l == lock
            && w.resource == resource),
    ensures
        queues_for(k.stepped(step), waiter, lock, resource),
{
    let d = k.stepped(step);
    assert forall|l: Seq<char>, i: int|
        d.locks.map.contains_key(l) && 0 <= i < d.locks.map[l].waiters.len() && (
        #[trigger] d.locks.map[l].waiters[i]).id == waiter implies l == lock
        && d.locks.map[l].waiters[i].resource == resource by {
        let now = d.locks.map[l].waiters;
        let was = k.queue(l).waiters;
        lemma_waiters_stepped(k, step, l, i);
        if !(step matches Step::Acquire { lock: m, waiter: w } && m == l && now[i] == w) {
            let j = choose|j: int| 0 <= j < was.len() && now[i] == #[trigger] was[j];
            assert(k.locks.map.contains_key(l));
            assert(k.locks.map[l].waiters[j].id == waiter);
        }
    }
    if let Some(o) = d.offered {
        if d.offered != k.offered {
            assert(k.locks.map[o.lock].waiters[0] == o.waiter);
        }
    }
}

/// Who queues after a step queued before it, or queues up with it.
pub proof fn lemma_waiters_stepped(k: CoordinatorView, step: Step, l: Seq<char>, i: int)
    requires
        k.wf(),
        k.allows(step),
        0 <= i < k.stepped(step).queue(l).waiters.len(),
    ensures
        ({
            let now = k.stepped(step).queue(l).waiters[i];
            let was = k.queue(l).waiters;
            ||| step matches Step::Acquire { lock, waiter } && lock == l && now == waiter
            ||| exists|j: int| 0 <= j < was.len() && now == #[trigger] was[j]
        }),
{
    let now = k.stepped(step).queue(l).waiters;
    let was = k.queue(l).waiters;
    if now == was {
        assert(now[i] == was[i]);
    } else {
        match step {
            Step::Acquire { lock, waiter } => {
                if i < was.len() {
                    assert(now[i] == was[i]);
                }
            },
            Step::Cancel { lock, waiter } => {
                lemma_waiter_index(was, waiter);
                let w = waiter_index(was, waiter);
                assert(now == was.remove(w));
                if i < w {
                    assert(now[i] == was[i]);
                } else {
                    assert(now[i] == was[i + 1]);
                }
            },
            _ => {
                assert(now == was.skip(1));
                assert(now[i] == was[i + 1]);
            },
        }
    }
}

/// **A semaphore gives each client a permit of its own.** Somebody who waits for a permit
/// of a semaphore and is told of one that was taken for it has a permit below the limit,
/// of the semaphore with that name and limit. Its token holds the lock of that permit, no
/// other token that holds a permit has the same one, and the permits that are still
/// queued for are cancelled.
pub proof fn law_permits_are_distinct(
    c: LockClientView,
    name: Seq<char>,
    limit: u32,
    pending: Seq<SlotView>,
    k: CoordinatorView,
) -> (i: int)
    requires
        stage_wf(StageView::Semaphore { name, limit, pending }),
        k.wf(),
        k.offered is Some,
        exists|j: int| 0 <= j < pending.len() && (#[trigger] pending[j]).waiter == k.offered->0.waiter.id,
        forall|j: int|
            0 <= j < pending.len() ==> queues_for(
                k,
                (#[trigger] pending[j]).waiter,
                pending[j].lock,
                slot_resource(SlotKind::Permit, name, limit, pending[j].permit),
            ),
    ensures
        0 <= i < pending.len(),
        ({
            let o = k.offered->0;
            let heard = HeardView::Acquired(o.waiter.id, Ok(o.acquired()));
            let call = c.hear(StageView::Semaphore { name, limit, pending }, heard).1;
            let d = k.settle(true).0;
            &&& call.stage matches StageView::Done(Ok(AnswerView::Semaphore(a))) && {
                &&& a.semaphore == name
                &&& a.limit == limit
                &&& a.permit == pending[i].permit
                &&& a.permit < limit
                &&& a.fence == o.fence
                &&& has_slot(d, SlotKind::Permit, name, limit, a.holder, a.permit)
                &&& forall|t: Seq<char>, p: u32|
                    t != a.holder && #[trigger] has_slot(d, SlotKind::Permit, name, limit, t, p)
                        ==> p != a.permit
            }
            &&& call.asks == cancellations(pending.remove(i))
        }),
{
    let o = k.offered->0;
    let d = k.settle(true).0;
    let i = slot_index(pending, o.waiter.id);
    lemma_slot_index(pending, o.waiter.id);
    let j = choose|j: int| 0 <= j < pending.len() && (#[trigger] pending[j]).waiter == o.waiter.id;
    assert(pending[j].waiter == o.waiter.id);
    assert(i < pending.len());
    assert(queues_for(
        k,
        pending[i].waiter,
        pending[i].lock,
        slot_resource(SlotKind::Permit, name, limit, pending[i].permit),
    ));
    law_taken_is_held(k);
    assert forall|t: Seq<char>, p: u32|
        t != o.token && #[trigger] has_slot(d, SlotKind::Permit, name, limit, t, p) implies p
        != pending[i].permit by {
        if p == pending[i].permit {
            law_one_token_per_lock(d, t, o.token);
        }
    }
    i
}

/// **A client queues for every permit.** It asks for all the permits of the semaphore, one
/// request and one id each, and waits for the first.
pub proof fn law_all_permits_are_asked_for(
    c: LockClientView,
    name: Seq<char>,
    limit: u32,
    p: u32,
)
    requires
        bounded_error(name, limit) is None,
        p < limit,
    ensures
        ({
            let call = c.acquire_semaphore(name, limit).1;
            &&& stage_wf(call.stage)
            &&& call.asks.len() == limit
            &&& call.stage matches StageView::Semaphore { pending, .. } && {
                &&& pending.len() == limit
                &&& pending[p as int].permit == p
                &&& call.asks[p as int] == (AskView::Acquire {
                    lock: pending[p as int].lock,
                    waiter: pending[p as int].waiter,
                    resource: slot_resource(SlotKind::Permit, name, limit, p),
                })
            }
        }),
{
    assert(slots_of(SlotKind::Permit, name, limit, c.slots(SlotKind::Permit, name, limit)));
}

} // verus!
