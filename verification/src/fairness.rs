//! Why nobody starves: requests are served in the order of their ids.
//!
//! An id is a logical time and a node. A vote is asked back for the sake of a
//! smaller request alone, a vote that becomes free goes to the smallest request that
//! waits for it, and whoever has heard of a request makes larger requests from then
//! on. So only the requests made by nodes that have not heard of a request yet can
//! come before it, each node's at most until it hears.
use vstd::prelude::*;

use crate::exclusion::lemma_tick_asks;
use crate::model::{arbiter_released, arbiter_yielded, is_smallest, lemma_smallest, NodeView};
use crate::types::{Instant, MessageView, NodeId};

verus! {

/// **Only smaller requests preempt**: a node asks a votee to yield only when a
/// smaller request arrives, and asks none but the one that has its vote. So the
/// smallest request is never asked to yield.
pub proof fn law_only_smaller_requests_preempt(
    n: NodeView,
    now: Instant,
    from: NodeId,
    msg: MessageView,
    j: int,
)
    requires
        n.outbox.len() == 0,
        0 <= j < n.handle(now, from, msg).outbox.len(),
        n.handle(now, from, msg).outbox[j].msg.kind is Inquire,
    ensures
        msg.kind is Request,
        n.handle(now, from, msg).outbox[j].msg.lock == msg.lock,
        n.arbiter_of(msg.lock).voted_for == Some(n.handle(now, from, msg).outbox[j].msg.req),
        msg.req.precedes(n.handle(now, from, msg).outbox[j].msg.req),
{
}

/// The passing of time asks nobody to yield.
pub proof fn law_time_preempts_nobody(n: NodeView, now: Instant, j: int)
    requires
        n.wf(),
        n.outbox.len() == 0,
        0 <= j < n.tick(now).outbox.len(),
    ensures
        !(n.tick(now).outbox[j].msg.kind is Inquire),
{
    lemma_tick_asks(n, now, j);
}

/// **The smallest goes first**: a vote that a votee gives back goes to the smallest
/// of the requests that wait, its own among them if it yielded.
pub proof fn law_smallest_goes_first(n: NodeView, now: Instant, from: NodeId, msg: MessageView)
    requires
        n.wf(),
        n.accepts(from, msg),
        msg.kind is Yield || msg.kind is Release,
        n.arbiter_of(msg.lock).voted_for == Some(msg.req),
    ensures
        ({
            let a = n.arbiter_of(msg.lock);
            let b = n.handle(now, from, msg).arbiter_of(msg.lock);
            let waiting = if msg.kind is Yield {
                a.queue.insert(msg.req)
            } else {
                a.queue.remove(msg.req)
            };
            match b.voted_for {
                Some(v) => is_smallest(waiting, v) && b.queue == waiting.remove(v),
                None => waiting =~= Set::empty(),
            }
        }),
{
    let a = n.arbiter_of(msg.lock);
    assert(a.wf());
    let mid = if msg.kind is Yield {
        arbiter_yielded(a, msg.req)
    } else {
        arbiter_released(a, msg.req, msg.fence)
    };
    if !(mid.queue =~= Set::empty()) {
        if mid.queue.len() == 0 {
            assert(mid.queue =~= Set::empty());
        }
        lemma_smallest(mid.queue);
    }
}

/// **Later requests wait behind**: whatever a node requests after it has heard of a
/// request comes after that request.
pub proof fn law_later_requests_wait_behind(
    n: NodeView,
    now: Instant,
    from: NodeId,
    msg: MessageView,
)
    requires
        n.accepts(from, msg),
        msg.kind is Request,
        n.handle(now, from, msg).lamport < u64::MAX,
    ensures
        msg.req.precedes(n.handle(now, from, msg).next_request()),
{
}

/// **Logical clocks never go back**, so that what comes after a request stays after
/// it.
pub proof fn law_clocks_never_go_back(
    n: NodeView,
    now: Instant,
    lock: Seq<char>,
    from: NodeId,
    msg: MessageView,
)
    requires
        n.lamport < u64::MAX,
    ensures
        n.request(now, lock).lamport >= n.lamport,
        n.release(lock).lamport == n.lamport,
        n.handle(now, from, msg).lamport >= n.lamport,
        n.tick(now).lamport == n.lamport,
{
}

/// **A repeated request changes nothing**: asking for a lock that is already asked
/// for or held leaves the node as it is.
pub proof fn law_repeated_request_changes_nothing(n: NodeView, now: Instant, lock: Seq<char>)
    requires
        n.lamport < u64::MAX,
    ensures
        n.request(now, lock).request(now, lock) == n.request(now, lock),
{
}

} // verus!
