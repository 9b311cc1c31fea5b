//! How a node's locks are handed over to its clients.
//!
//! The laws say of every step of the coordinator what becomes of the queue of a lock, who is
//! told what, and what the node is asked to do.
use vstd::prelude::*;

use crate::client_api::{AcquireView, ClientError, ReleaseView, ResourceView, WaiterId};
use crate::coordinator::{
    lemma_waiter_index, token_of, without_token, without_waiter, CoordinatorView, HolderView,
    OfferView, WaiterView,
};
use crate::text::hex_number;
use crate::transport::{CommandView, NodeEventView};
use crate::types::Fence;

verus! {

/// Nothing but what is known of one lock differs.
pub open spec fn other_queues_stay(c: CoordinatorView, d: CoordinatorView, lock: Seq<char>) -> bool {
    forall|l: Seq<char>| l != lock ==> #[trigger] d.queue(l) == c.queue(l)
}

/// What a waiter got, without what others got.
proof fn lemma_without(s: Seq<(WaiterId, Seq<char>)>, w: WaiterId, v: WaiterId, t: Seq<char>)
    ensures
        token_of(without_waiter(s, w), w) is None,
        v != w ==> token_of(without_waiter(s, w), v) == token_of(s, v),
        token_of(without_token(s, t), v) != Some(t),
        token_of(s, v) != Some(t) ==> token_of(without_token(s, t), v) == token_of(s, v),
    decreases s.len(),
{
    if s.len() > 0 {
        let init = s.drop_last();
        lemma_without(init, w, v, t);
        let a = without_waiter(init, w).push(s.last());
        assert(a.drop_last() =~= without_waiter(init, w));
        let b = without_token(init, t).push(s.last());
        assert(b.drop_last() =~= without_token(init, t));
    }
}

/// One more entry.
proof fn lemma_token_pushed(s: Seq<(WaiterId, Seq<char>)>, w: WaiterId, v: WaiterId, t: Seq<char>)
    ensures
        token_of(s.push((w, t)), w) == Some(t),
        v != w ==> token_of(s.push((w, t)), v) == token_of(s, v),
{
    assert(s.push((w, t)).drop_last() =~= s);
}

/// **A new coordinator knows nobody.**
pub proof fn law_new_coordinators_know_nobody(lock: Seq<char>, token: Seq<char>)
    ensures
        ({
            let c = CoordinatorView::fresh();
            &&& c.queue(lock).waiters.len() == 0
            &&& !c.queue(lock).acquiring
            &&& c.queue(lock).holder is None
            &&& c.holders.get(token) is None
            &&& c.held_lock(token) is None
            &&& c.offered is None
            &&& c.next_holder == 1
        }),
{
}

/// **Waiters queue up.** A waiter takes the last place in the queue of its lock. The node is
/// asked for the lock if nobody has it and the node has not been asked already, and not
/// otherwise.
pub proof fn law_waiters_queue_up(c: CoordinatorView, lock: Seq<char>, waiter: WaiterView)
    ensures
        ({
            let (d, commands) = c.acquire(lock, waiter);
            let idle = !c.queue(lock).acquiring && c.queue(lock).holder is None;
            &&& d.queue(lock).waiters == c.queue(lock).waiters.push(waiter)
            &&& d.queue(lock).holder == c.queue(lock).holder
            &&& d.queue(lock).acquiring == (c.queue(lock).acquiring || idle)
            &&& idle ==> commands == seq![CommandView::Acquire(lock)]
            &&& !idle ==> commands.len() == 0
            &&& other_queues_stay(c, d, lock)
            &&& d.holders == c.holders && d.offered == c.offered && d.next_holder
                == c.next_holder
        }),
{
}

/// **An acquisition goes to the first waiter.** When the node has acquired a lock, whoever is
/// first in its queue leaves it and is told the name under which it asked, the fence with
/// which the node acquired the lock, and a token that is counted in sixteen hexadecimal
/// digits. If nobody waits, the lock goes back to the cluster.
pub proof fn law_acquisitions_go_to_the_first_waiter(
    c: CoordinatorView,
    lock: Seq<char>,
    fence: Fence,
)
    requires
        c.locks.map.contains_key(lock),
        c.next_holder < u64::MAX,
    ensures
        ({
            let (d, commands) = c.on_event(NodeEventView::Acquired(lock, fence));
            let waiters = c.queue(lock).waiters;
            &&& !d.queue(lock).acquiring
            &&& d.queue(lock).holder == c.queue(lock).holder
            &&& other_queues_stay(c, d, lock)
            &&& d.holders == c.holders
            &&& if waiters.len() == 0 {
                &&& d.offered is None
                &&& commands == seq![CommandView::Release(lock)]
                &&& d.next_holder == c.next_holder
            } else {
                &&& commands.len() == 0
                &&& d.next_holder == c.next_holder + 1
                &&& d.queue(lock).waiters == waiters.skip(1)
                &&& d.offered matches Some(o) && o.lock == lock && o.fence == fence && o.waiter
                    == waiters[0] && o.acquired() == (AcquireView {
                    lock: match waiters[0].resource {
                        ResourceView::Lock { lock: asked } => asked,
                        ResourceView::Semaphore { name, .. } => name,
                    },
                    fence,
                    holder: "h"@ + hex_number(c.next_holder as nat, 16),
                })
            }
        }),
        // Of what nobody ever asked for the coordinator takes no notice.
        forall|other: Seq<char>|
            !c.locks.map.contains_key(other) ==> (#[trigger] c.on_event(
                NodeEventView::Acquired(other, fence),
            )).0 == c && c.on_event(NodeEventView::Acquired(other, fence)).1.len() == 0,
{
}

/// **Who takes an acquisition holds the lock.** It holds it with the token that it was told;
/// the node is not asked for anything. If it is gone, the next in the queue is offered the
/// same acquisition, with a token of its own; if there is nobody, the lock goes back.
pub proof fn law_takers_hold_the_lock(c: CoordinatorView, o: OfferView)
    requires
        c.offered == Some(o),
        c.next_holder < u64::MAX,
    ensures
        ({
            let (d, commands) = c.settle(true);
            &&& d.offered is None
            &&& commands.len() == 0
            &&& d.queue(o.lock).holder == Some(
                HolderView { token: o.token, waiter: o.waiter.id, resource: o.waiter.resource },
            )
            &&& d.queue(o.lock).waiters == c.queue(o.lock).waiters
            &&& d.queue(o.lock).acquiring == c.queue(o.lock).acquiring
            &&& d.held_lock(o.token) == Some(o.lock)
            &&& token_of(d.waiter_holders, o.waiter.id) == Some(o.token)
            &&& forall|w: WaiterId|
                w != o.waiter.id ==> #[trigger] token_of(d.waiter_holders, w) == token_of(
                    c.waiter_holders,
                    w,
                )
            &&& d.next_holder == c.next_holder
            &&& other_queues_stay(c, d, o.lock)
        }),
        ({
            let (d, commands) = c.settle(false);
            let waiters = c.queue(o.lock).waiters;
            &&& d.queue(o.lock).holder == c.queue(o.lock).holder
            &&& d.holders == c.holders
            &&& other_queues_stay(c, d, o.lock)
            &&& waiters.len() == 0 ==> d.offered is None && commands == seq![
                CommandView::Release(o.lock),
            ]
            &&& waiters.len() > 0 ==> commands.len() == 0 && d.queue(o.lock).waiters
                == waiters.skip(1) && d.offered == Some(
                OfferView {
                    lock: o.lock,
                    fence: o.fence,
                    waiter: waiters[0],
                    token: "h"@ + hex_number(c.next_holder as nat, 16),
                },
            )
        }),
        // Without an offer there is nothing to take.
        forall|d: CoordinatorView, taken: bool|
            d.offered is None ==> (#[trigger] d.settle(taken)).0 == d && d.settle(taken).1.len()
                == 0,
{
    let id = o.waiter.id;
    let kept = without_waiter(c.waiter_holders, id);
    assert forall|w: WaiterId| #[trigger] token_of(kept.push((id, o.token)), w) == if w == id {
        Some(o.token)
    } else {
        token_of(c.waiter_holders, w)
    } by {
        lemma_without(c.waiter_holders, id, w, o.token);
        lemma_token_pushed(kept, id, w, o.token);
    }
}

/// What somebody is told who gives something back.
pub open spec fn told_at_release(resource: ResourceView) -> ReleaseView {
    match resource {
        ResourceView::Lock { lock } => ReleaseView {
            lock,
            semaphore: None,
            limit: None,
            permit: None,
            rwlock: None,
            mode: None,
        },
        ResourceView::Semaphore { name, limit, permit } => ReleaseView {
            lock: name,
            semaphore: Some(name),
            limit: Some(limit),
            permit: Some(permit),
            rwlock: None,
            mode: None,
        },
    }
}

/// **The holder gives the lock back to the cluster.** With the token that holds a lock, named
/// or not, the release succeeds: the client is told what it gave back, the token is known no
/// more, nobody holds the lock, and the node is asked to release it, and then to acquire it
/// again exactly if somebody waits for it. The queue stays as it is.
pub proof fn law_holders_give_the_lock_back(
    c: CoordinatorView,
    lock: Seq<char>,
    token: Seq<char>,
    named: bool,
)
    requires
        c.wf(),
        c.held_lock(token) == Some(lock),
    ensures
        ({
            let by_name = if named {
                Some(lock)
            } else {
                None
            };
            let (d, told, commands) = c.release(by_name, token);
            &&& told == Ok::<ReleaseView, ClientError>(
                told_at_release(c.queue(lock).holder->0.resource),
            )
            &&& d.queue(lock).holder is None
            &&& d.holders.get(token) is None
            &&& d.held_lock(token) is None
            &&& forall|w: WaiterId|
                #![trigger token_of(d.waiter_holders, w)]
                token_of(d.waiter_holders, w) != Some(token) && (token_of(c.waiter_holders, w)
                    != Some(token) ==> token_of(d.waiter_holders, w) == token_of(
                    c.waiter_holders,
                    w,
                ))
            &&& d.queue(lock).waiters == c.queue(lock).waiters
            &&& d.queue(lock).acquiring == (c.queue(lock).waiters.len() > 0)
            &&& other_queues_stay(c, d, lock)
            &&& c.queue(lock).waiters.len() > 0 ==> commands == seq![
                CommandView::Release(lock),
                CommandView::Acquire(lock),
            ]
            &&& c.queue(lock).waiters.len() == 0 ==> commands == seq![CommandView::Release(lock)]
        }),
{
    assert(c.queue(lock).wf()) by {
        assert(c.locks.map.contains_key(lock));
    }
    assert forall|w: WaiterId| #[trigger] token_of(
        without_token(c.waiter_holders, token),
        w,
    ) != Some(token) && (token_of(c.waiter_holders, w) != Some(token) ==> token_of(
        without_token(c.waiter_holders, token),
        w,
    ) == token_of(c.waiter_holders, w)) by {
        lemma_without(c.waiter_holders, w, w, token);
    }
}

/// **Nobody else does.** A token that is not known gives nothing back; one that is known for
/// another lock than the named one gives nothing back either. The node is asked for nothing
/// and nobody's hold or place changes.
pub proof fn law_others_give_nothing_back(
    c: CoordinatorView,
    lock: Seq<char>,
    by_name: Option<Seq<char>>,
    token: Seq<char>,
)
    ensures
        c.holders.get(token) is None ==> c.release(by_name, token).0 == c && c.release(
            by_name,
            token,
        ).1 == Err::<ReleaseView, ClientError>(ClientError::NotHeld) && c.release(
            by_name,
            token,
        ).2.len() == 0,
        c.holders.get(token) is Some && c.holders.get(token) != Some(lock) ==> c.release(
            Some(lock),
            token,
        ).0 == c && c.release(Some(lock), token).1 == Err::<ReleaseView, ClientError>(
            ClientError::HolderMismatch,
        ) && c.release(Some(lock), token).2.len() == 0,
        c.held_lock(token) is None ==> c.release(by_name, token).1 is Err && c.release(
            by_name,
            token,
        ).2.len() == 0 && c.release(by_name, token).0.locks == c.locks,
{
}

/// **Who withdraws leaves the queue**, and nobody else loses a place; the node is asked for
/// nothing.
pub proof fn law_who_withdraws_leaves_the_queue(
    c: CoordinatorView,
    lock: Seq<char>,
    waiter: WaiterId,
    i: int,
)
    requires
        0 <= i < c.queue(lock).waiters.len(),
        c.queue(lock).waiters[i].id == waiter,
        forall|j: int| 0 <= j < i ==> (#[trigger] c.queue(lock).waiters[j]).id != waiter,
    ensures
        ({
            let (d, commands) = c.cancel(lock, waiter);
            &&& commands.len() == 0
            &&& d.queue(lock).waiters == c.queue(lock).waiters.remove(i)
            &&& d.queue(lock).holder == c.queue(lock).holder
            &&& d.queue(lock).acquiring == c.queue(lock).acquiring
            &&& other_queues_stay(c, d, lock)
            &&& d.holders == c.holders
        }),
{
    lemma_waiter_index(c.queue(lock).waiters, waiter);
    let k = crate::coordinator::waiter_index(c.queue(lock).waiters, waiter);
    if k > i {
        assert(c.queue(lock).waiters[i].id != waiter);
    }
    if k < i {
        assert(c.queue(lock).waiters[k].id == waiter);
    }
}

/// **Who withdraws too late gives back what it got.** A waiter that has left the queue and
/// holds something gives it back, as by a release with its token; one that holds nothing
/// changes nothing.
pub proof fn law_late_withdrawals_give_back(
    c: CoordinatorView,
    lock: Seq<char>,
    waiter: WaiterId,
)
    requires
        forall|j: int|
            0 <= j < c.queue(lock).waiters.len() ==> (#[trigger] c.queue(lock).waiters[j]).id
                != waiter,
    ensures
        ({
            let (d, commands) = c.cancel(lock, waiter);
            match token_of(c.waiter_holders, waiter) {
                Some(token) => d == c.release(None, token).0 && commands == c.release(
                    None,
                    token,
                ).2,
                None => d == c && commands.len() == 0,
            }
        }),
{
    lemma_waiter_index(c.queue(lock).waiters, waiter);
}

/// **A lost lock is held by nobody.** When the node has lost a lock, its holder's token is
/// known no more, so that it releases nothing; the queue stays, and the node is asked for the
/// lock again exactly if somebody waits and it has not been asked already.
pub proof fn law_lost_locks_are_held_by_nobody(c: CoordinatorView, lock: Seq<char>)
    requires
        c.locks.map.contains_key(lock),
    ensures
        ({
            let (d, commands) = c.on_event(NodeEventView::Lost(lock));
            let again = c.queue(lock).waiters.len() > 0 && !c.queue(lock).acquiring;
            &&& d.queue(lock).holder is None
            &&& c.queue(lock).holder matches Some(h) ==> d.holders.get(h.token) is None
                && d.held_lock(h.token) is None && token_of(d.waiter_holders, h.waiter) is None
                && forall|w: WaiterId|
                w != h.waiter ==> #[trigger] token_of(d.waiter_holders, w) == token_of(
                    c.waiter_holders,
                    w,
                )
            &&& d.queue(lock).waiters == c.queue(lock).waiters
            &&& d.queue(lock).acquiring == (c.queue(lock).acquiring || again)
            &&& again ==> commands == seq![CommandView::Acquire(lock)]
            &&& !again ==> commands.len() == 0
            &&& other_queues_stay(c, d, lock)
            &&& d.offered == c.offered
        }),
{
    if let Some(h) = c.queue(lock).holder {
        assert forall|w: WaiterId| #[trigger] token_of(
            without_waiter(c.waiter_holders, h.waiter),
            w,
        ) == if w == h.waiter {
            None
        } else {
            token_of(c.waiter_holders, w)
        } by {
            lemma_without(c.waiter_holders, h.waiter, w, h.token);
        }
    }
}

/// **Only acquisitions and losses matter.** What a node says for people changes nothing, nor
/// does the loss of a lock that nobody ever asked for.
pub proof fn law_other_events_change_nothing(c: CoordinatorView, text: Seq<char>, lock: Seq<char>)
    ensures
        c.on_event(NodeEventView::Info(text)).0 == c,
        c.on_event(NodeEventView::Info(text)).1.len() == 0,
        !c.locks.map.contains_key(lock) ==> c.on_event(NodeEventView::Lost(lock)).0 == c
            && c.on_event(NodeEventView::Lost(lock)).1.len() == 0,
{
}

} // verus!
