//! Queues the clients of one node for its locks.
//!
//! The node holds at most one request per lock. The coordinator keeps a queue
//! of waiters for each lock, asks the node for a lock when somebody wants it,
//! and gives each acquisition to the first waiter that still listens, with a
//! holder token that only the release of that lock accepts.
use std::collections::VecDeque;

use vstd::arithmetic::power::pow;
use vstd::prelude::*;

use crate::client_api::{
    opt_view, AcquireView, ClientAcquire, ClientError, ClientRelease, ClientResource, ReleaseView,
    ResourceView, WaiterId,
};
use crate::lock_map::{lemma_table_del_wf, lemma_table_put_wf, LockMap, Table};
use crate::text::{
    chars_of, hex_number, hex_number_chars, lemma_hex_number_injective, push_chars, str_eq,
    string_of,
};
use crate::transport::{command_views, Command, CommandView, NodeEvent, NodeEventView};
use crate::types::{Fence, LockId};

verus! {

// ---- the model -----------------------------------------------------------------------------
/// Somebody who wants a lock.
#[verifier::ext_equal]
pub struct WaiterView {
    pub id: WaiterId,
    pub resource: ResourceView,
}

/// Who holds a lock.
#[verifier::ext_equal]
pub struct HolderView {
    pub token: Seq<char>,
    pub waiter: WaiterId,
    pub resource: ResourceView,
}

/// What is known of a lock: who waits for it, whether the node has been asked
/// for it, and who holds it.
#[verifier::ext_equal]
pub struct QueueView {
    pub waiters: Seq<WaiterView>,
    pub acquiring: bool,
    pub holder: Option<HolderView>,
}

impl QueueView {
    /// Nobody wants the lock.
    pub open spec fn empty() -> QueueView {
        QueueView { waiters: Seq::empty(), acquiring: false, holder: None }
    }

    /// The node is asked for the lock at most while nobody holds it.
    pub open spec fn wf(self) -> bool {
        !(self.acquiring && self.holder is Some)
    }

    /// Somebody waits although nobody holds the lock and the node has not been
    /// asked for it.
    pub open spec fn forgotten(self) -> bool {
        self.waiters.len() > 0 && !self.acquiring && self.holder is None
    }

    /// Whether the node has or should get the lock.
    pub open spec fn wanted(self) -> bool {
        self.acquiring || self.holder is Some
    }
}

/// An acquisition that is on its way to a waiter.
#[verifier::ext_equal]
pub struct OfferView {
    pub lock: Seq<char>,
    pub fence: Fence,
    pub waiter: WaiterView,
    pub token: Seq<char>,
}

impl OfferView {
    /// What the waiter is told.
    pub open spec fn acquired(self) -> AcquireView {
        AcquireView {
            lock: self.waiter.resource.client_lock(),
            fence: self.fence,
            holder: self.token,
        }
    }
}

/// The `n`-th holder token.
pub open spec fn holder_token(n: nat) -> Seq<char> {
    "h"@ + hex_number(n, 16)
}

/// The entries of other waiters.
pub open spec fn without_waiter(s: Seq<(WaiterId, Seq<char>)>, w: WaiterId) -> Seq<
    (WaiterId, Seq<char>),
>
    decreases s.len(),
{
    if s.len() == 0 {
        Seq::empty()
    } else if s.last().0 == w {
        without_waiter(s.drop_last(), w)
    } else {
        without_waiter(s.drop_last(), w).push(s.last())
    }
}

/// The entries with other tokens.
pub open spec fn without_token(s: Seq<(WaiterId, Seq<char>)>, t: Seq<char>) -> Seq<
    (WaiterId, Seq<char>),
>
    decreases s.len(),
{
    if s.len() == 0 {
        Seq::empty()
    } else if s.last().1 == t {
        without_token(s.drop_last(), t)
    } else {
        without_token(s.drop_last(), t).push(s.last())
    }
}

/// The token that a waiter got.
pub open spec fn token_of(s: Seq<(WaiterId, Seq<char>)>, w: WaiterId) -> Option<Seq<char>>
    decreases s.len(),
{
    if s.len() == 0 {
        None
    } else if s.last().0 == w {
        Some(s.last().1)
    } else {
        token_of(s.drop_last(), w)
    }
}

/// Where the first waiter with the id is; the length if there is none.
pub open spec fn waiter_index(s: Seq<WaiterView>, w: WaiterId) -> int
    decreases s.len(),
{
    if s.len() == 0 || s[0].id == w {
        0
    } else {
        1 + waiter_index(s.skip(1), w)
    }
}

/// The state of a [`Coordinator`].
#[verifier::ext_equal]
pub struct CoordinatorView {
    pub locks: Table<QueueView>,
    /// The lock that each holder token was given out for.
    pub holders: Table<Seq<char>>,
    /// The token that each waiter got.
    pub waiter_holders: Seq<(WaiterId, Seq<char>)>,
    pub next_holder: u64,
    /// The acquisition that is on its way to a waiter.
    pub offered: Option<OfferView>,
}

impl CoordinatorView {
    /// Nobody wants anything.
    pub open spec fn fresh() -> CoordinatorView {
        CoordinatorView {
            locks: Table::empty(),
            holders: Table::empty(),
            waiter_holders: Seq::empty(),
            next_holder: 1,
            offered: None,
        }
    }

    /// What is known of `lock`.
    pub open spec fn queue(self, lock: Seq<char>) -> QueueView {
        match self.locks.get(lock) {
            Some(q) => q,
            None => QueueView::empty(),
        }
    }

    /// The coordinator with something else known of `lock`.
    pub open spec fn with_queue(self, lock: Seq<char>, q: QueueView) -> CoordinatorView {
        CoordinatorView { locks: self.locks.put(lock, q), ..self }
    }

    /// The lock that `token` holds.
    pub open spec fn held_lock(self, token: Seq<char>) -> Option<Seq<char>> {
        match self.holders.get(token) {
            Some(lock) => if self.queue(lock).holder matches Some(h) && h.token == token {
                Some(lock)
            } else {
                None
            },
            None => None,
        }
    }

    /// The tokens given out so far have numbers below the next one, and no
    /// waiter of any lock is forgotten: the node has the lock or has been asked
    /// for it, or the lock is just being handed over.
    pub open spec fn wf(self) -> bool {
        &&& self.locks.wf()
        &&& self.holders.wf()
        &&& self.next_holder > 0
        &&& forall|l: Seq<char>| #[trigger]
            self.locks.map.contains_key(l) ==> {
                let q = self.locks.map[l];
                &&& l.len() > 0
                &&& q.wf()
                &&& q.forgotten() ==> (self.offered matches Some(o) && o.lock == l)
                &&& q.holder matches Some(h) ==> self.holders.get(h.token) == Some(l)
            }
        &&& forall|t: Seq<char>| #[trigger]
            self.holders.map.contains_key(t) ==> self.issued(t) && self.locks.map.contains_key(
                self.holders.map[t],
            )
        &&& self.offered matches Some(o) ==> {
            &&& self.locks.map.contains_key(o.lock)
            &&& !self.locks.map[o.lock].acquiring
            &&& self.issued(o.token)
            &&& !self.holders.map.contains_key(o.token)
        }
    }

    /// `token` has been given out.
    pub open spec fn issued(self, token: Seq<char>) -> bool {
        exists|n: nat| 0 < n < self.next_holder && token == #[trigger] holder_token(n)
    }

    /// `waiter` queues up for `lock`; the node is asked for it if it has neither
    /// the lock nor been asked.
    pub open spec fn acquire(self, lock: Seq<char>, waiter: WaiterView) -> (
        CoordinatorView,
        Seq<CommandView>,
    ) {
        let q = self.queue(lock);
        let waiters = q.waiters.push(waiter);
        if q.wanted() {
            (self.with_queue(lock, QueueView { waiters, ..q }), Seq::empty())
        } else {
            (
                self.with_queue(lock, QueueView { waiters, acquiring: true, ..q }),
                seq![CommandView::Acquire(lock)],
            )
        }
    }

    /// Offer `lock` to the first waiter; give it back to the cluster if there is
    /// none.
    pub open spec fn grant(self, lock: Seq<char>, fence: Fence) -> (
        CoordinatorView,
        Seq<CommandView>,
    ) {
        let q = self.queue(lock);
        if q.waiters.len() == 0 {
            (CoordinatorView { offered: None, ..self }, seq![CommandView::Release(lock)])
        } else {
            let offer = OfferView {
                lock,
                fence,
                waiter: q.waiters[0],
                token: holder_token(self.next_holder as nat),
            };
            (
                CoordinatorView {
                    next_holder: (self.next_holder + 1) as u64,
                    offered: Some(offer),
                    ..self.with_queue(lock, QueueView { waiters: q.waiters.skip(1), ..q })
                },
                Seq::empty(),
            )
        }
    }

    /// The node has acquired `lock`.
    pub open spec fn on_acquired(self, lock: Seq<char>, fence: Fence) -> (
        CoordinatorView,
        Seq<CommandView>,
    ) {
        if self.locks.map.contains_key(lock) {
            let q = self.queue(lock);
            self.with_queue(lock, QueueView { acquiring: false, ..q }).grant(lock, fence)
        } else {
            (self, Seq::empty())
        }
    }

    /// The node has lost `lock`: its holder holds it no more, and the node is
    /// asked again if somebody waits.
    pub open spec fn on_lost(self, lock: Seq<char>) -> (CoordinatorView, Seq<CommandView>) {
        if self.locks.map.contains_key(lock) {
            let q = self.queue(lock);
            let c = match q.holder {
                Some(h) => CoordinatorView {
                    holders: self.holders.del(h.token),
                    waiter_holders: without_waiter(self.waiter_holders, h.waiter),
                    ..self
                },
                None => self,
            };
            let again = q.waiters.len() > 0 && !q.acquiring;
            (
                c.with_queue(
                    lock,
                    QueueView { holder: None, acquiring: q.acquiring || again, ..q },
                ),
                if again {
                    seq![CommandView::Acquire(lock)]
                } else {
                    Seq::empty()
                },
            )
        } else {
            (self, Seq::empty())
        }
    }

    /// What an event of the node does.
    pub open spec fn on_event(self, ev: NodeEventView) -> (CoordinatorView, Seq<CommandView>) {
        match ev {
            NodeEventView::Acquired(lock, fence) => self.on_acquired(lock, fence),
            NodeEventView::Lost(lock) => self.on_lost(lock),
            NodeEventView::Info(_) => (self, Seq::empty()),
        }
    }

    /// The waiter has taken what it was offered.
    pub open spec fn taken(self, o: OfferView) -> CoordinatorView {
        let q = self.queue(o.lock);
        let holder = HolderView {
            token: o.token,
            waiter: o.waiter.id,
            resource: o.waiter.resource,
        };
        CoordinatorView {
            holders: self.holders.put(o.token, o.lock),
            waiter_holders: without_waiter(self.waiter_holders, o.waiter.id).push(
                (o.waiter.id, o.token),
            ),
            offered: None,
            ..self.with_queue(o.lock, QueueView { holder: Some(holder), ..q })
        }
    }

    /// The waiter has taken what it was offered, or is gone: then the next one
    /// is offered the lock.
    pub open spec fn settle(self, taken: bool) -> (CoordinatorView, Seq<CommandView>) {
        match self.offered {
            None => (self, Seq::empty()),
            Some(o) => if taken {
                (self.taken(o), Seq::empty())
            } else {
                self.grant(o.lock, o.fence)
            },
        }
    }

    /// Whether `token` may release, a lock by name if one is given: the error if
    /// not.
    pub open spec fn release_error(self, lock: Option<Seq<char>>, token: Seq<char>) -> Option<
        ClientError,
    > {
        match self.holders.get(token) {
            None => Some(ClientError::NotHeld),
            Some(held) => if lock is Some && lock->0 != held {
                Some(ClientError::HolderMismatch)
            } else {
                match self.queue(held).holder {
                    None => Some(ClientError::NotHeld),
                    Some(h) => if h.token == token {
                        None
                    } else {
                        Some(ClientError::HolderMismatch)
                    },
                }
            },
        }
    }

    /// A release with `token`. The lock goes back to the cluster, and the node
    /// is asked for it again if somebody waits.
    pub open spec fn release(self, lock: Option<Seq<char>>, token: Seq<char>) -> (
        CoordinatorView,
        Result<ReleaseView, ClientError>,
        Seq<CommandView>,
    ) {
        match self.release_error(lock, token) {
            Some(e) => {
                let held = self.holders.get(token);
                if e is NotHeld && held is Some {
                    (
                        CoordinatorView { holders: self.holders.del(token), ..self },
                        Err(e),
                        Seq::empty(),
                    )
                } else {
                    (self, Err(e), Seq::empty())
                }
            },
            None => {
                let held = self.holders.map[token];
                let q = self.queue(held);
                let again = q.waiters.len() > 0 && !q.acquiring;
                (
                    CoordinatorView {
                        holders: self.holders.del(token),
                        waiter_holders: without_token(self.waiter_holders, token),
                        ..self.with_queue(
                            held,
                            QueueView { holder: None, acquiring: q.acquiring || again, ..q },
                        )
                    },
                    Ok(q.holder->0.resource.release()),
                    if again {
                        seq![CommandView::Release(held), CommandView::Acquire(held)]
                    } else {
                        seq![CommandView::Release(held)]
                    },
                )
            },
        }
    }

    /// `waiter` no longer wants `lock`: it leaves the queue, or releases what it
    /// got.
    pub open spec fn cancel(self, lock: Seq<char>, waiter: WaiterId) -> (
        CoordinatorView,
        Seq<CommandView>,
    ) {
        let q = self.queue(lock);
        let i = waiter_index(q.waiters, waiter);
        if i < q.waiters.len() {
            (self.with_queue(lock, QueueView { waiters: q.waiters.remove(i), ..q }), Seq::empty())
        } else {
            match token_of(self.waiter_holders, waiter) {
                Some(token) => {
                    let (c, _, commands) = self.release(None, token);
                    (c, commands)
                },
                None => (self, Seq::empty()),
            }
        }
    }
}

// ---- lemmas and laws -------------------------------------------------------------------------
/// Different numbers make different tokens.
pub proof fn lemma_tokens_differ(a: nat, b: nat)
    requires
        a <= u64::MAX,
        b <= u64::MAX,
        holder_token(a) == holder_token(b),
    ensures
        a == b,
{
    reveal_strlit("h");
    assert(pow(16, 16) == 0x1_0000_0000_0000_0000) by {
        reveal_with_fuel(pow, 17);
    }
    assert(holder_token(a).skip(1) =~= hex_number(a, 16));
    assert(holder_token(b).skip(1) =~= hex_number(b, 16));
    lemma_hex_number_injective(a, b, 16);
}

impl CoordinatorView {
    /// A change of one entry keeps the state well-formed, if the entry is right.
    proof fn lemma_with_queue_wf(self, lock: Seq<char>, q: QueueView)
        requires
            self.wf(),
            lock.len() > 0,
            q.wf(),
            q.forgotten() ==> (self.offered matches Some(o) && o.lock == lock),
            q.holder matches Some(h) ==> self.holders.get(h.token) == Some(lock),
            self.offered matches Some(o) ==> (o.lock == lock ==> !q.acquiring),
        ensures
            self.with_queue(lock, q).wf(),
    {
        let c = self.with_queue(lock, q);
        lemma_table_put_wf(self.locks, lock, q);
        assert forall|l: Seq<char>| #[trigger] c.locks.map.contains_key(l) implies {
            let p = c.locks.map[l];
            &&& l.len() > 0
            &&& p.wf()
            &&& p.forgotten() ==> (c.offered matches Some(o) && o.lock == l)
            &&& p.holder matches Some(h) ==> c.holders.get(h.token) == Some(l)
        } by {
            if l != lock {
                assert(self.locks.map.contains_key(l));
            }
        }
        assert forall|t: Seq<char>| #[trigger] c.holders.map.contains_key(t) implies c.issued(t)
            && c.locks.map.contains_key(c.holders.map[t]) by {
            assert(self.holders.map.contains_key(t));
            assert(self.issued(t));
            let n = choose|n: nat| 0 < n < self.next_holder && t == #[trigger] holder_token(n);
            assert(t == holder_token(n));
        }
        if let Some(o) = c.offered {
            let n = choose|n: nat|
                0 < n < self.next_holder && o.token == #[trigger] holder_token(n);
            assert(o.token == holder_token(n));
        }
    }

    /// Queueing up keeps the state well-formed.
    pub proof fn lemma_acquire_wf(self, lock: Seq<char>, waiter: WaiterView)
        requires
            self.wf(),
            self.offered is None,
            lock.len() > 0,
        ensures
            self.acquire(lock, waiter).0.wf(),
    {
        let q = self.queue(lock);
        let waiters = q.waiters.push(waiter);
        if q.wanted() {
            self.lemma_with_queue_wf(lock, QueueView { waiters, ..q });
        } else {
            self.lemma_with_queue_wf(lock, QueueView { waiters, acquiring: true, ..q });
        }
    }

    /// The next token has not been given out.
    pub proof fn lemma_next_token_fresh(self)
        requires
            self.wf(),
        ensures
            !self.issued(holder_token(self.next_holder as nat)),
            !self.holders.map.contains_key(holder_token(self.next_holder as nat)),
    {
        let t = holder_token(self.next_holder as nat);
        if self.issued(t) {
            let n = choose|n: nat| 0 < n < self.next_holder && t == #[trigger] holder_token(n);
            lemma_tokens_differ(n, self.next_holder as nat);
        }
    }

    /// Handing over keeps the state well-formed. The lock may be without a
    /// request for the moment.
    proof fn lemma_grant_wf(self, lock: Seq<char>, fence: Fence)
        requires
            (CoordinatorView {
                offered: Some(
                    OfferView {
                        lock,
                        fence,
                        waiter: WaiterView { id: 0, resource: ResourceView::Lock { lock } },
                        token: holder_token(self.next_holder as nat),
                    },
                ),
                next_holder: (self.next_holder + 1) as u64,
                ..self
            }).wf(),
            self.next_holder < u64::MAX,
            self.next_holder > 0,
            forall|t: Seq<char>| #[trigger] self.holders.map.contains_key(t) ==> self.issued(t),
        ensures
            self.grant(lock, fence).0.wf(),
    {
        let b = CoordinatorView {
            offered: Some(
                OfferView {
                    lock,
                    fence,
                    waiter: WaiterView { id: 0, resource: ResourceView::Lock { lock } },
                    token: holder_token(self.next_holder as nat),
                },
            ),
            next_holder: (self.next_holder + 1) as u64,
            ..self
        };
        let q = self.queue(lock);
        let c = self.grant(lock, fence).0;
        if q.waiters.len() == 0 {
            assert forall|l: Seq<char>| #[trigger] c.locks.map.contains_key(l) implies {
                let p = c.locks.map[l];
                &&& l.len() > 0
                &&& p.wf()
                &&& !p.forgotten()
                &&& p.holder matches Some(h) ==> c.holders.get(h.token) == Some(l)
            } by {
                assert(b.locks.map.contains_key(l));
            }
            assert forall|t: Seq<char>| #[trigger] c.holders.map.contains_key(t) implies c.issued(t)
                && c.locks.map.contains_key(c.holders.map[t]) by {
                assert(b.holders.map.contains_key(t));
                assert(self.issued(t));
                let n = choose|n: nat|
                    0 < n < self.next_holder && t == #[trigger] holder_token(n);
                assert(t == holder_token(n));
            }
        } else {
            b.lemma_with_queue_wf(lock, QueueView { waiters: q.waiters.skip(1), ..q });
            let d = b.with_queue(lock, QueueView { waiters: q.waiters.skip(1), ..q });
            assert forall|t: Seq<char>| d.issued(t) implies #[trigger] c.issued(t) by {
                let n = choose|n: nat|
                    0 < n < d.next_holder && t == #[trigger] holder_token(n);
                assert(t == holder_token(n));
            }
            assert forall|l: Seq<char>| #[trigger] c.locks.map.contains_key(l) implies {
                let p = c.locks.map[l];
                &&& l.len() > 0
                &&& p.wf()
                &&& p.forgotten() ==> (c.offered matches Some(o) && o.lock == l)
                &&& p.holder matches Some(h) ==> c.holders.get(h.token) == Some(l)
            } by {
                assert(d.locks.map.contains_key(l));
            }
            assert forall|t: Seq<char>| #[trigger] c.holders.map.contains_key(t) implies c.issued(t)
                && c.locks.map.contains_key(c.holders.map[t]) by {
                assert(d.holders.map.contains_key(t));
                assert(d.issued(t));
            }
            assert(c.issued(holder_token(self.next_holder as nat)));
        }
    }

    /// An event of the node keeps the state well-formed.
    pub proof fn lemma_event_wf(self, ev: NodeEventView)
        requires
            self.wf(),
            self.offered is None,
            self.next_holder < u64::MAX,
        ensures
            self.on_event(ev).0.wf(),
    {
        match ev {
            NodeEventView::Acquired(lock, fence) => if self.locks.map.contains_key(lock) {
                let q = self.queue(lock);
                let c = self.with_queue(lock, QueueView { acquiring: false, ..q });
                self.lemma_next_token_fresh();
                let b = CoordinatorView {
                    offered: Some(
                        OfferView {
                            lock,
                            fence,
                            waiter: WaiterView { id: 0, resource: ResourceView::Lock { lock } },
                            token: holder_token(self.next_holder as nat),
                        },
                    ),
                    next_holder: (self.next_holder + 1) as u64,
                    ..c
                };
                lemma_table_put_wf(self.locks, lock, QueueView { acquiring: false, ..q });
                assert forall|l: Seq<char>| #[trigger] b.locks.map.contains_key(l) implies {
                    let p = b.locks.map[l];
                    &&& l.len() > 0
                    &&& p.wf()
                    &&& p.forgotten() ==> (b.offered matches Some(o) && o.lock == l)
                    &&& p.holder matches Some(h) ==> b.holders.get(h.token) == Some(l)
                } by {
                    assert(self.locks.map.contains_key(l));
                }
                assert forall|t: Seq<char>| #[trigger] b.holders.map.contains_key(t) implies b.issued(
                    t,
                ) && c.issued(t) && b.locks.map.contains_key(b.holders.map[t]) by {
                    assert(self.holders.map.contains_key(t));
                    assert(self.issued(t));
                    let n = choose|n: nat|
                        0 < n < self.next_holder && t == #[trigger] holder_token(n);
                    assert(t == holder_token(n));
                }
                assert(b.issued(holder_token(self.next_holder as nat)));
                c.lemma_grant_wf(lock, fence);
            },
            NodeEventView::Lost(lock) => if self.locks.map.contains_key(lock) {
                let q = self.queue(lock);
                let again = q.waiters.len() > 0 && !q.acquiring;
                let p = QueueView { holder: None, acquiring: q.acquiring || again, ..q };
                let token = match q.holder {
                    Some(h) => Some(h.token),
                    None => None,
                };
                self.lemma_holder_gone_wf(lock, p, token, self.on_lost(lock).0.waiter_holders);
                assert(self.on_lost(lock).0 =~= self.without_holder(
                    lock,
                    p,
                    token,
                    self.on_lost(lock).0.waiter_holders,
                ));
            },
            NodeEventView::Info(_) => {},
        }
    }

    /// The state without the holder of `lock`.
    spec fn without_holder(
        self,
        lock: Seq<char>,
        q: QueueView,
        token: Option<Seq<char>>,
        waiter_holders: Seq<(WaiterId, Seq<char>)>,
    ) -> CoordinatorView {
        CoordinatorView {
            holders: match token {
                Some(t) => self.holders.del(t),
                None => self.holders,
            },
            waiter_holders,
            ..self.with_queue(lock, q)
        }
    }

    /// Forgetting the holder of `lock` keeps the state well-formed.
    proof fn lemma_holder_gone_wf(
        self,
        lock: Seq<char>,
        q: QueueView,
        token: Option<Seq<char>>,
        waiter_holders: Seq<(WaiterId, Seq<char>)>,
    )
        requires
            self.wf(),
            self.offered is None,
            self.locks.map.contains_key(lock),
            q.holder is None,
            !q.forgotten(),
            token matches Some(t) ==> self.holders.get(t) == Some(lock),
        ensures
            self.without_holder(lock, q, token, waiter_holders).wf(),
    {
        let c = self.without_holder(lock, q, token, waiter_holders);
        lemma_table_put_wf(self.locks, lock, q);
        if let Some(t) = token {
            lemma_table_del_wf(self.holders, t);
        }
        assert forall|l: Seq<char>| #[trigger] c.locks.map.contains_key(l) implies {
            let p = c.locks.map[l];
            &&& l.len() > 0
            &&& p.wf()
            &&& !p.forgotten()
            &&& p.holder matches Some(h) ==> c.holders.get(h.token) == Some(l)
        } by {
            assert(self.locks.map.contains_key(l));
        }
        assert forall|t: Seq<char>| #[trigger] c.holders.map.contains_key(t) implies c.issued(t)
            && c.locks.map.contains_key(c.holders.map[t]) by {
            assert(self.holders.map.contains_key(t));
            assert(self.issued(t));
            let n = choose|n: nat| 0 < n < self.next_holder && t == #[trigger] holder_token(n);
            assert(t == holder_token(n));
        }
    }

    /// An answer to an offer keeps the state well-formed.
    pub proof fn lemma_settle_wf(self, taken: bool)
        requires
            self.wf(),
            self.next_holder < u64::MAX,
        ensures
            self.settle(taken).0.wf(),
    {
        if let Some(o) = self.offered {
            if taken {
                let c = self.taken(o);
                let q = self.queue(o.lock);
                let holder = HolderView {
                    token: o.token,
                    waiter: o.waiter.id,
                    resource: o.waiter.resource,
                };
                lemma_table_put_wf(self.holders, o.token, o.lock);
                lemma_table_put_wf(
                    self.locks,
                    o.lock,
                    QueueView { holder: Some(holder), ..q },
                );
                assert forall|l: Seq<char>| #[trigger] c.locks.map.contains_key(l) implies {
                    let p = c.locks.map[l];
                    &&& l.len() > 0
                    &&& p.wf()
                    &&& !p.forgotten()
                    &&& p.holder matches Some(h) ==> c.holders.get(h.token) == Some(l)
                } by {
                    assert(self.locks.map.contains_key(l));
                }
                assert forall|t: Seq<char>| #[trigger] c.holders.map.contains_key(t) implies c.issued(
                    t,
                ) && c.locks.map.contains_key(c.holders.map[t]) by {
                    if t != o.token {
                        assert(self.holders.map.contains_key(t));
                    }
                    assert(self.issued(t));
                    let n = choose|n: nat|
                        0 < n < self.next_holder && t == #[trigger] holder_token(n);
                    assert(t == holder_token(n));
                }
            } else {
                self.lemma_next_token_fresh();
                let b = CoordinatorView {
                    offered: Some(
                        OfferView {
                            lock: o.lock,
                            fence: o.fence,
                            waiter: WaiterView {
                                id: 0,
                                resource: ResourceView::Lock { lock: o.lock },
                            },
                            token: holder_token(self.next_holder as nat),
                        },
                    ),
                    next_holder: (self.next_holder + 1) as u64,
                    ..self
                };
                assert forall|l: Seq<char>| #[trigger] b.locks.map.contains_key(l) implies {
                    let p = b.locks.map[l];
                    &&& l.len() > 0
                    &&& p.wf()
                    &&& p.forgotten() ==> (b.offered matches Some(o2) && o2.lock == l)
                    &&& p.holder matches Some(h) ==> b.holders.get(h.token) == Some(l)
                } by {
                    assert(self.locks.map.contains_key(l));
                }
                assert forall|t: Seq<char>| #[trigger] b.holders.map.contains_key(t) implies b.issued(
                    t,
                ) && self.issued(t) && b.locks.map.contains_key(b.holders.map[t]) by {
                    assert(self.holders.map.contains_key(t));
                    assert(self.issued(t));
                    let n = choose|n: nat|
                        0 < n < self.next_holder && t == #[trigger] holder_token(n);
                    assert(t == holder_token(n));
                }
                assert(b.issued(holder_token(self.next_holder as nat)));
                self.lemma_grant_wf(o.lock, o.fence);
            }
        }
    }

    /// A release keeps the state well-formed.
    pub proof fn lemma_release_wf(self, lock: Option<Seq<char>>, token: Seq<char>)
        requires
            self.wf(),
            self.offered is None,
        ensures
            self.release(lock, token).0.wf(),
    {
        match self.release_error(lock, token) {
            Some(e) => {
                let held = self.holders.get(token);
                if e is NotHeld && held is Some {
                    let l = held->0;
                    let q = self.queue(l);
                    assert(self.holders.map.contains_key(token));
                    assert(self.locks.map.contains_key(l));
                    assert(!q.forgotten());
                    self.lemma_holder_gone_wf(l, q, Some(token), self.waiter_holders);
                    self.locks.lemma_put_same(l);
                    assert(self.release(lock, token).0 =~= self.without_holder(
                        l,
                        q,
                        Some(token),
                        self.waiter_holders,
                    ));
                }
            },
            None => {
                let held = self.holders.map[token];
                assert(self.holders.map.contains_key(token));
                let q = self.queue(held);
                let again = q.waiters.len() > 0 && !q.acquiring;
                let p = QueueView { holder: None, acquiring: q.acquiring || again, ..q };
                let rest = without_token(self.waiter_holders, token);
                self.lemma_holder_gone_wf(held, p, Some(token), rest);
                assert(self.release(lock, token).0 =~= self.without_holder(
                    held,
                    p,
                    Some(token),
                    rest,
                ));
            },
        }
    }

    /// A cancellation keeps the state well-formed.
    pub proof fn lemma_cancel_wf(self, lock: Seq<char>, waiter: WaiterId)
        requires
            self.wf(),
            self.offered is None,
        ensures
            self.cancel(lock, waiter).0.wf(),
    {
        let q = self.queue(lock);
        let i = waiter_index(q.waiters, waiter);
        if i < q.waiters.len() {
            lemma_waiter_index(q.waiters, waiter);
            assert(self.locks.map.contains_key(lock));
            self.lemma_with_queue_wf(lock, QueueView { waiters: q.waiters.remove(i), ..q });
        } else if let Some(token) = token_of(self.waiter_holders, waiter) {
            self.lemma_release_wf(None, token);
        }
    }
}

/// Where the first waiter with an id is.
pub proof fn lemma_waiter_index(s: Seq<WaiterView>, w: WaiterId)
    ensures
        0 <= waiter_index(s, w) <= s.len(),
        waiter_index(s, w) < s.len() ==> s[waiter_index(s, w)].id == w,
        forall|j: int| 0 <= j < waiter_index(s, w) ==> (#[trigger] s[j]).id != w,
    decreases s.len(),
{
    if s.len() > 0 && s[0].id != w {
        let rest = s.skip(1);
        lemma_waiter_index(rest, w);
        assert forall|j: int| 0 <= j < waiter_index(s, w) implies (#[trigger] s[j]).id != w by {
            if j > 0 {
                assert(s[j] == rest[j - 1]);
            }
        }
    }
}

/// Who is told of an acquisition, in the end: the first waiter of `waiters`
/// that listens; the number of waiters if none does.
pub open spec fn first_listener(
    waiters: Seq<WaiterView>,
    listens: spec_fn(WaiterId) -> bool,
) -> int
    decreases waiters.len(),
{
    if waiters.len() == 0 || listens(waiters[0].id) {
        0
    } else {
        1 + first_listener(waiters.skip(1), listens)
    }
}

impl CoordinatorView {
    /// The state once `lock` has been offered to waiter after waiter, until one
    /// took it or none was left; and what the node is asked.
    pub open spec fn hand_over(
        self,
        lock: Seq<char>,
        fence: Fence,
        listens: spec_fn(WaiterId) -> bool,
    ) -> (CoordinatorView, Seq<CommandView>)
        decreases self.queue(lock).waiters.len(),
    {
        let (c, commands) = self.grant(lock, fence);
        if self.queue(lock).waiters.len() == 0 {
            (c, commands)
        } else if listens(self.queue(lock).waiters[0].id) {
            c.settle(true)
        } else {
            c.hand_over(lock, fence, listens)
        }
    }

    /// Whether the node has the lock or has been asked for it on behalf of
    /// clients.
    pub open spec fn claims(self, lock: Seq<char>) -> bool {
        self.queue(lock).wanted() || (self.offered matches Some(o) && o.lock == lock)
    }
}

/// **The first listener gets the lock.** However many waiters have gone, an
/// acquisition goes to the first one that still listens, under a fresh token,
/// and those behind it stay in line. If nobody listens, the lock goes back to
/// the cluster.
pub proof fn law_first_listener_holds(
    c: CoordinatorView,
    lock: Seq<char>,
    fence: Fence,
    listens: spec_fn(WaiterId) -> bool,
)
    requires
        c.locks.map.contains_key(lock),
        c.next_holder + c.queue(lock).waiters.len() <= u64::MAX,
    ensures
        ({
            let waiters = c.queue(lock).waiters;
            let k = first_listener(waiters, listens);
            let (d, commands) = c.hand_over(lock, fence, listens);
            &&& d.offered is None
            &&& if k < waiters.len() {
                &&& commands == Seq::<CommandView>::empty()
                &&& d.queue(lock).waiters == waiters.skip(k + 1)
                &&& d.queue(lock).holder == Some(
                    HolderView {
                        token: holder_token((c.next_holder + k) as nat),
                        waiter: waiters[k].id,
                        resource: waiters[k].resource,
                    },
                )
                &&& d.held_lock(holder_token((c.next_holder + k) as nat)) == Some(lock)
            } else {
                &&& commands == seq![CommandView::Release(lock)]
                &&& d.queue(lock).waiters.len() == 0
                &&& d.queue(lock).holder == c.queue(lock).holder
            }
        }),
    decreases c.queue(lock).waiters.len(),
{
    let q = c.queue(lock);
    let (b, _) = c.grant(lock, fence);
    if q.waiters.len() > 0 {
        assert(b.queue(lock).waiters =~= q.waiters.skip(1));
        assert(b.locks.map.contains_key(lock));
        if listens(q.waiters[0].id) {
            let d = b.settle(true).0;
            assert(d.queue(lock).waiters =~= q.waiters.skip(1));
        } else {
            law_first_listener_holds(b, lock, fence, listens);
            let k = first_listener(q.waiters.skip(1), listens);
            if k < q.waiters.len() - 1 {
                lemma_first_listener(q.waiters.skip(1), listens);
                assert(q.waiters.skip(1).skip(k + 1) =~= q.waiters.skip(k + 2));
                assert(q.waiters.skip(1)[k] == q.waiters[k + 1]);
            }
        }
    }
}

proof fn lemma_first_listener(waiters: Seq<WaiterView>, listens: spec_fn(WaiterId) -> bool)
    ensures
        0 <= first_listener(waiters, listens) <= waiters.len(),
    decreases waiters.len(),
{
    if waiters.len() > 0 && !listens(waiters[0].id) {
        lemma_first_listener(waiters.skip(1), listens);
    }
}

/// **A token releases once.** After a release has succeeded, the lock has no
/// holder and the same token is refused.
pub proof fn law_token_releases_once(
    c: CoordinatorView,
    lock: Option<Seq<char>>,
    token: Seq<char>,
    again: Option<Seq<char>>,
)
    requires
        c.wf(),
        c.release(lock, token).1 is Ok,
    ensures
        c.held_lock(token) is Some,
        c.release(lock, token).0.queue(c.held_lock(token)->0).holder is None,
        c.release(lock, token).0.release(again, token).1 == Err::<ReleaseView, ClientError>(
            ClientError::NotHeld,
        ),
{
}

/// **Only the holder releases.** A release succeeds exactly with the token that
/// holds a lock now, and names that lock if it names one; a failed release
/// takes the lock from nobody.
pub proof fn law_only_holder_releases(
    c: CoordinatorView,
    lock: Option<Seq<char>>,
    token: Seq<char>,
    other: Seq<char>,
)
    requires
        c.wf(),
    ensures
        c.release(lock, token).1 is Ok <==> {
            &&& c.held_lock(token) is Some
            &&& lock is Some ==> lock == c.held_lock(token)
        },
        c.release(lock, token).1 is Err ==> c.release(lock, token).0.held_lock(other)
            == c.held_lock(other),
        other != token ==> c.release(lock, token).0.held_lock(other) == c.held_lock(other),
{
    let d = c.release(lock, token).0;
    if c.holders.map.contains_key(token) {
        assert(c.locks.map.contains_key(c.holders.map[token]));
    }
    if c.holders.map.contains_key(other) {
        let l = c.holders.map[other];
        assert(c.locks.map.contains_key(l));
        if let Some(h) = c.queue(l).holder {
            assert(c.holders.get(h.token) == Some(l));
        }
    }
}

/// **One holder per lock.** Two tokens never hold the same lock at one time.
pub proof fn law_one_token_per_lock(c: CoordinatorView, a: Seq<char>, b: Seq<char>)
    requires
        c.held_lock(a) is Some,
        c.held_lock(a) == c.held_lock(b),
    ensures
        a == b,
{
}

/// **Nobody is forgotten.** While somebody waits for a lock, the node has it or
/// has been asked for it.
pub proof fn law_nobody_is_forgotten(c: CoordinatorView, lock: Seq<char>)
    requires
        c.wf(),
        c.offered is None,
        c.queue(lock).waiters.len() > 0,
    ensures
        c.queue(lock).wanted(),
{
    assert(c.locks.map.contains_key(lock));
}

/// **Tokens are never given out twice.**
pub proof fn law_tokens_are_fresh(c: CoordinatorView, lock: Seq<char>, fence: Fence)
    requires
        c.wf(),
        c.next_holder < u64::MAX,
        c.queue(lock).waiters.len() > 0,
    ensures
        c.grant(lock, fence).0.offered matches Some(o) && !c.issued(o.token)
            && c.grant(lock, fence).0.issued(o.token),
        forall|t: Seq<char>| c.issued(t) ==> #[trigger] c.grant(lock, fence).0.issued(t),
{
    c.lemma_next_token_fresh();
    let d = c.grant(lock, fence).0;
    assert(d.issued(holder_token(c.next_holder as nat)));
    assert forall|t: Seq<char>| c.issued(t) implies #[trigger] d.issued(t) by {
        let n = choose|n: nat| 0 < n < c.next_holder && t == #[trigger] holder_token(n);
        assert(t == holder_token(n));
    }
}

/// Whether a node that wants a lock or not wants it after commands.
pub open spec fn wants_after(
    wants: bool,
    lock: Seq<char>,
    commands: Seq<CommandView>,
) -> bool
    decreases commands.len(),
{
    if commands.len() == 0 {
        wants
    } else {
        let before = wants_after(wants, lock, commands.drop_last());
        match commands.last() {
            CommandView::Acquire(l) => before || l == lock,
            CommandView::Release(l) => before && l != lock,
            CommandView::Shutdown => before,
        }
    }
}

/// **The node is asked for what clients want.** After every operation the
/// commands so far leave the node with exactly the locks that clients hold or
/// wait for. Whoever acquires a lock has it; whoever loses one has it no more,
/// unless it was asked for again.
pub proof fn law_node_wants_what_clients_want(
    c: CoordinatorView,
    lock: Seq<char>,
    waiter: WaiterView,
    fence: Fence,
    name: Option<Seq<char>>,
    token: Seq<char>,
    of: Seq<char>,
)
    requires
        c.wf(),
        c.offered is None,
    ensures
        ({
            let (d, commands) = c.acquire(lock, waiter);
            d.claims(of) == wants_after(c.claims(of), of, commands)
        }),
        ({
            let (d, commands) = c.cancel(lock, waiter.id);
            d.claims(of) == wants_after(c.claims(of), of, commands)
        }),
        ({
            let (d, _, commands) = c.release(name, token);
            d.claims(of) == wants_after(c.claims(of), of, commands)
        }),
        ({
            let (d, commands) = c.on_lost(lock);
            d.claims(of) == wants_after(
                if of == lock {
                    c.queue(lock).acquiring
                } else {
                    c.claims(of)
                },
                of,
                commands,
            )
        }),
        c.locks.map.contains_key(lock) && c.queue(lock).holder is None ==> ({
            let (d, commands) = c.on_acquired(lock, fence);
            d.claims(of) == wants_after(of == lock || c.claims(of), of, commands)
        }),
{
    lemma_wants_one(c.claims(of), of, CommandView::Acquire(lock));
    lemma_wants_release(c, name, token, of);
    let q = c.queue(lock);
    if let Some(t) = token_of(c.waiter_holders, waiter.id) {
        lemma_wants_release(c, None, t, of);
    }
    lemma_wants_one(q.acquiring, of, CommandView::Acquire(lock));
    lemma_wants_one(true, of, CommandView::Release(lock));
    lemma_wants_one(c.claims(of), of, CommandView::Release(lock));
}

proof fn lemma_wants_one(wants: bool, lock: Seq<char>, command: CommandView)
    ensures
        wants_after(wants, lock, Seq::empty()) == wants,
        wants_after(wants, lock, seq![command]) == match command {
            CommandView::Acquire(l) => wants || l == lock,
            CommandView::Release(l) => wants && l != lock,
            CommandView::Shutdown => wants,
        },
{
    assert(seq![command].drop_last() =~= Seq::empty());
}

proof fn lemma_wants_release(
    c: CoordinatorView,
    name: Option<Seq<char>>,
    token: Seq<char>,
    of: Seq<char>,
)
    requires
        c.wf(),
        c.offered is None,
    ensures
        ({
            let (d, _, commands) = c.release(name, token);
            d.claims(of) == wants_after(c.claims(of), of, commands)
        }),
{
    if c.release_error(name, token) is None {
        let held = c.holders.map[token];
        let q = c.queue(held);
        let commands = c.release(name, token).2;
        lemma_wants_one(c.claims(of), of, CommandView::Release(held));
        if q.waiters.len() > 0 && !q.acquiring {
            assert(commands.drop_last() =~= seq![CommandView::Release(held)]);
        }
        assert(c.locks.map.contains_key(held));
        assert(q.wf());
    }
}

// ---- the coordinator ---------------------------------------------------------------------------
/// Somebody who wants a lock.
struct Waiter {
    id: WaiterId,
    resource: ClientResource,
}

impl View for Waiter {
    type V = WaiterView;

    closed spec fn view(&self) -> WaiterView {
        WaiterView { id: self.id, resource: self.resource@ }
    }
}

/// Who holds a lock.
struct Holder {
    token: String,
    waiter: WaiterId,
    resource: ClientResource,
}

impl View for Holder {
    type V = HolderView;

    closed spec fn view(&self) -> HolderView {
        HolderView { token: self.token@, waiter: self.waiter, resource: self.resource@ }
    }
}

/// The contents of waiters, in order.
spec fn waiter_views(waiters: Seq<Waiter>) -> Seq<WaiterView> {
    waiters.map_values(|w: Waiter| w@)
}

/// What is known of a lock.
struct LockQueue {
    waiters: VecDeque<Waiter>,
    acquiring: bool,
    holder: Option<Holder>,
}

impl View for LockQueue {
    type V = QueueView;

    closed spec fn view(&self) -> QueueView {
        QueueView {
            waiters: waiter_views(self.waiters@),
            acquiring: self.acquiring,
            holder: match self.holder {
                Some(h) => Some(h@),
                None => None,
            },
        }
    }
}

/// An acquisition that is on its way to a waiter.
struct Offered {
    lock: LockId,
    fence: Fence,
    waiter: Waiter,
    token: String,
}

impl View for Offered {
    type V = OfferView;

    closed spec fn view(&self) -> OfferView {
        OfferView {
            lock: self.lock@,
            fence: self.fence,
            waiter: self.waiter@,
            token: self.token@,
        }
    }
}

/// The contents of entries of waiters with their tokens.
pub open spec fn entry_views(s: Seq<(WaiterId, String)>) -> Seq<(WaiterId, Seq<char>)> {
    s.map_values(|e: (WaiterId, String)| (e.0, e.1@))
}

/// Queues the clients of one node for its locks.
///
/// Each operation says what to ask of the node. When the node has acquired a
/// lock that somebody waits for, the operation leaves an offer
/// ([`Coordinator::offer`]): tell the waiter, and say with
/// [`Coordinator::settle`] whether it was still there.
pub struct Coordinator {
    locks: LockMap<LockQueue>,
    holders: LockMap<String>,
    waiter_holders: Vec<(WaiterId, String)>,
    next_holder: u64,
    offered: Option<Offered>,
}

impl View for Coordinator {
    type V = CoordinatorView;

    closed spec fn view(&self) -> CoordinatorView {
        CoordinatorView {
            locks: self.locks@,
            holders: self.holders@,
            waiter_holders: entry_views(self.waiter_holders@),
            next_holder: self.next_holder,
            offered: match self.offered {
                Some(o) => Some(o@),
                None => None,
            },
        }
    }
}

/// The `n`-th holder token.
fn make_token(n: u64) -> (s: String)
    ensures
        s@ == holder_token(n as nat),
{
    let mut v = chars_of("h");
    push_chars(&mut v, &hex_number_chars(n, 16));
    string_of(&v)
}

/// Drop the entries of a waiter.
fn drop_waiter(entries: &mut Vec<(WaiterId, String)>, w: WaiterId)
    ensures
        entry_views(final(entries)@) == without_waiter(entry_views(old(entries)@), w),
{
    let mut all: Vec<(WaiterId, String)> = Vec::new();
    std::mem::swap(&mut all, entries);
    let ghost views = entry_views(all@);
    assert(entry_views(entries@) =~= without_waiter(views.take(0), w));
    for e in it: all
        invariant
            it.seq() == all@,
            views == entry_views(all@),
            entry_views(entries@) == without_waiter(views.take(it.index() as int), w),
    {
        let ghost i = it.index() as int;
        let ghost was = entries@;
        proof {
            assert(views[i] == (e.0, e.1@));
            assert(views.take(i + 1).drop_last() =~= views.take(i));
            assert(views.take(i + 1).last() == views[i]);
        }
        if e.0 != w {
            entries.push(e);
            assert(entry_views(entries@) =~= entry_views(was).push(views[i]));
        }
    }
    assert(views.take(views.len() as int) =~= views);
}

/// Drop the entries with a token.
fn drop_token(entries: &mut Vec<(WaiterId, String)>, t: &str)
    ensures
        entry_views(final(entries)@) == without_token(entry_views(old(entries)@), t@),
{
    let mut all: Vec<(WaiterId, String)> = Vec::new();
    std::mem::swap(&mut all, entries);
    let ghost views = entry_views(all@);
    assert(entry_views(entries@) =~= without_token(views.take(0), t@));
    for e in it: all
        invariant
            it.seq() == all@,
            views == entry_views(all@),
            entry_views(entries@) == without_token(views.take(it.index() as int), t@),
    {
        let ghost i = it.index() as int;
        let ghost was = entries@;
        proof {
            assert(views[i] == (e.0, e.1@));
            assert(views.take(i + 1).drop_last() =~= views.take(i));
            assert(views.take(i + 1).last() == views[i]);
        }
        if !str_eq(e.1.as_str(), t) {
            entries.push(e);
            assert(entry_views(entries@) =~= entry_views(was).push(views[i]));
        }
    }
    assert(views.take(views.len() as int) =~= views);
}

/// The token that a waiter got.
fn find_token(entries: &Vec<(WaiterId, String)>, w: WaiterId) -> (r: Option<String>)
    ensures
        opt_view(r) == token_of(entry_views(entries@), w),
{
    let ghost views = entry_views(entries@);
    let mut n: usize = entries.len();
    assert(views.take(n as int) =~= views);
    while n > 0
        invariant
            n <= entries@.len(),
            views == entry_views(entries@),
            token_of(views.take(n as int), w) == token_of(views, w),
        decreases n,
    {
        proof {
            assert(views.take(n as int).drop_last() =~= views.take(n - 1));
            assert(views.take(n as int).last() == views[n - 1]);
        }
        if entries[n - 1].0 == w {
            return Some(entries[n - 1].1.clone());
        }
        n -= 1;
    }
    assert(views.take(0) =~= Seq::empty());
    None
}

impl LockQueue {
    /// Nobody wants the lock.
    fn new() -> (q: LockQueue)
        ensures
            q@ == QueueView::empty(),
    {
        let q = LockQueue { waiters: VecDeque::new(), acquiring: false, holder: None };
        assert(q@ =~= QueueView::empty());
        q
    }

    /// Queue up.
    fn push(&mut self, w: Waiter)
        ensures
            final(self)@ == (QueueView {
                waiters: old(self)@.waiters.push(w@),
                ..old(self)@
            }),
    {
        self.waiters.push_back(w);
        assert(self@ =~= QueueView { waiters: old(self)@.waiters.push(w@), ..old(self)@ });
    }

    /// Take the first waiter out.
    fn pop(&mut self) -> (r: Option<Waiter>)
        ensures
            match r {
                Some(w) => old(self)@.waiters.len() > 0 && w@ == old(self)@.waiters[0]
                    && final(self)@ == (QueueView {
                    waiters: old(self)@.waiters.skip(1),
                    ..old(self)@
                }),
                None => old(self)@.waiters.len() == 0 && final(self)@ == old(self)@,
            },
    {
        let r = self.waiters.pop_front();
        proof {
            if r is Some {
                assert(self@ =~= QueueView {
                    waiters: old(self)@.waiters.skip(1),
                    ..old(self)@
                });
            }
        }
        r
    }

    /// Take a waiter out, if it is there.
    fn remove(&mut self, w: WaiterId) -> (found: bool)
        ensures
            found == (waiter_index(old(self)@.waiters, w) < old(self)@.waiters.len()),
            final(self)@ == if found {
                QueueView {
                    waiters: old(self)@.waiters.remove(waiter_index(old(self)@.waiters, w)),
                    ..old(self)@
                }
            } else {
                old(self)@
            },
    {
        let ghost views = self@.waiters;
        proof {
            lemma_waiter_index(views, w);
        }
        let mut i: usize = 0;
        while i < self.waiters.len()
            invariant
                *self == *old(self),
                views == self@.waiters,
                i <= waiter_index(views, w) <= views.len(),
                waiter_index(views, w) < views.len() ==> views[waiter_index(views, w)].id == w,
                forall|j: int|
                    0 <= j < waiter_index(views, w) ==> (#[trigger] views[j]).id != w,
            decreases self.waiters@.len() - i,
        {
            assert(views[i as int] == self.waiters@[i as int]@);
            if self.waiters[i].id == w {
                let ghost before = self.waiters@;
                let _ = self.waiters.remove(i);
                proof {
                    assert(waiter_views(self.waiters@) =~= views.remove(i as int));
                    assert(self@ =~= QueueView {
                        waiters: views.remove(i as int),
                        ..old(self)@
                    });
                }
                return true;
            }
            i += 1;
        }
        false
    }

    /// Ask the node for the lock from now on.
    fn set_acquiring(&mut self, acquiring: bool)
        ensures
            final(self)@ == (QueueView { acquiring, ..old(self)@ }),
    {
        self.acquiring = acquiring;
        assert(self@ =~= QueueView { acquiring, ..old(self)@ });
    }

    /// Have a holder or none.
    fn set_holder(&mut self, holder: Option<Holder>)
        ensures
            final(self)@ == (QueueView {
                holder: match holder {
                    Some(h) => Some(h@),
                    None => None,
                },
                ..old(self)@
            }),
    {
        self.holder = holder;
        assert(self@ =~= QueueView {
            holder: match holder {
                Some(h) => Some(h@),
                None => None,
            },
            ..old(self)@
        });
    }
}

/// A list of one command.
fn one_command(c: Command) -> (v: Vec<Command>)
    ensures
        command_views(v@) == seq![c@],
{
    let mut v: Vec<Command> = Vec::new();
    v.push(c);
    assert(command_views(v@) =~= seq![c@]);
    v
}

/// A list without commands.
fn no_commands() -> (v: Vec<Command>)
    ensures
        command_views(v@) == Seq::<CommandView>::empty(),
{
    let v: Vec<Command> = Vec::new();
    assert(command_views(v@) =~= Seq::empty());
    v
}

impl Coordinator {
    /// The tables and the state are in order.
    pub closed spec fn wf(&self) -> bool {
        &&& self.locks.wf()
        &&& self.holders.wf()
        &&& self@.wf()
    }

    /// A well-formed coordinator has a well-formed state.
    pub proof fn lemma_wf_view(&self)
        requires
            self.wf(),
        ensures
            self@.wf(),
    {
    }

    /// Nobody wants anything.
    pub fn new() -> (c: Coordinator)
        ensures
            c.wf(),
            c@ == CoordinatorView::fresh(),
    {
        let c = Coordinator {
            locks: LockMap::new(),
            holders: LockMap::new(),
            waiter_holders: Vec::new(),
            next_holder: 1,
            offered: None,
        };
        assert(c@ =~= CoordinatorView::fresh());
        c
    }

    /// How many tokens have been given out, and one more.
    pub fn next_holder(&self) -> (n: u64)
        ensures
            n == self@.next_holder,
    {
        self.next_holder
    }

    /// Who is to be told of an acquisition, and what.
    pub fn offer(&self) -> (r: Option<(WaiterId, ClientAcquire)>)
        ensures
            match r {
                Some((w, a)) => self@.offered matches Some(o) && w == o.waiter.id && a@
                    == o.acquired(),
                None => self@.offered is None,
            },
    {
        match &self.offered {
            Some(o) => {
                let a = ClientAcquire {
                    lock: o.waiter.resource.client_lock(),
                    fence: o.fence,
                    holder: o.token.clone(),
                };
                Some((o.waiter.id, a))
            },
            None => None,
        }
    }

    /// `waiter` queues up for `lock`.
    pub fn acquire(&mut self, lock: LockId, waiter: WaiterId, resource: ClientResource) -> (r:
        Result<Vec<Command>, ClientError>)
        requires
            old(self).wf(),
            old(self)@.offered is None,
        ensures
            final(self).wf(),
            match r {
                Err(e) => lock@.len() == 0 && e is EmptyLock && final(self)@ == old(self)@,
                Ok(commands) => {
                    let (c, asked) = old(self)@.acquire(
                        lock@,
                        WaiterView { id: waiter, resource: resource@ },
                    );
                    lock@.len() > 0 && final(self)@ == c && command_views(commands@) == asked
                },
            },
    {
        if lock.as_str().is_empty() {
            return Err(ClientError::EmptyLock);
        }
        let ghost w = WaiterView { id: waiter, resource: resource@ };
        let ghost q = self@.queue(lock@);
        proof {
            self@.lemma_acquire_wf(lock@, w);
        }
        let i: usize = match self.locks.find(lock.as_str()) {
            Some(i) => i,
            None => {
                self.locks.push(lock.clone(), LockQueue::new());
                self.locks.len() - 1
            },
        };
        let ghost mid = self@;
        proof {
            if !old(self)@.locks.map.contains_key(lock@) {
                assert(mid.locks.keys.last() == lock@);
                assert(mid.locks == old(self)@.locks.put(lock@, QueueView::empty()));
            }
            assert(mid.locks.keys[i as int] == lock@);
            assert(mid.locks.map[lock@] == q);
        }
        let queue = self.locks.value_mut(i);
        queue.push(Waiter { id: waiter, resource });
        let ask = queue.holder.is_none() && !queue.acquiring;
        if ask {
            queue.set_acquiring(true);
        }
        let ghost now = *queue;
        proof {
            if !old(self)@.locks.map.contains_key(lock@) {
                old(self)@.locks.lemma_put_put(lock@, QueueView::empty(), now@);
            }
            assert(self@ =~= old(self)@.acquire(lock@, w).0);
        }
        if ask {
            Ok(one_command(Command::Acquire(lock)))
        } else {
            Ok(no_commands())
        }
    }

    /// Offer `lock` to its first waiter; give it back if there is none.
    fn grant_next_waiter(&mut self, lock: LockId, fence: Fence) -> (commands: Vec<Command>)
        requires
            old(self).locks.wf(),
            old(self).holders.wf(),
            old(self)@.locks.map.contains_key(lock@),
            old(self)@.next_holder < u64::MAX,
        ensures
            final(self).locks.wf(),
            final(self).holders.wf(),
            final(self)@ == old(self)@.grant(lock@, fence).0,
            command_views(commands@) == old(self)@.grant(lock@, fence).1,
    {
        proof {
            self.locks.lemma_wf_view();
        }
        let i: usize = match self.locks.find(lock.as_str()) {
            Some(i) => i,
            None => {
                return no_commands();
            },
        };
        let queue = self.locks.value_mut(i);
        let first = queue.pop();
        let ghost now = *queue;
        match first {
            Some(waiter) => {
                let token = make_token(self.next_holder);
                self.next_holder = self.next_holder + 1;
                self.offered = Some(Offered { lock, fence, waiter, token });
                assert(self@ =~= old(self)@.grant(lock@, fence).0);
                no_commands()
            },
            None => {
                self.offered = None;
                proof {
                    old(self)@.locks.lemma_put_same(lock@);
                    assert(self@ =~= old(self)@.grant(lock@, fence).0);
                }
                one_command(Command::Release(lock))
            },
        }
    }

    /// React to an event of the node. An acquisition may leave an offer.
    pub fn handle_node_event(&mut self, ev: &NodeEvent) -> (commands: Vec<Command>)
        requires
            old(self).wf(),
            old(self)@.offered is None,
            old(self)@.next_holder < u64::MAX,
        ensures
            final(self).wf(),
            final(self)@ == old(self)@.on_event(ev@).0,
            command_views(commands@) == old(self)@.on_event(ev@).1,
    {
        proof {
            self@.lemma_event_wf(ev@);
        }
        match ev {
            NodeEvent::Acquired(lock, fence) => {
                match self.locks.find(lock.as_str()) {
                    Some(i) => {
                        let queue = self.locks.value_mut(i);
                        queue.set_acquiring(false);
                        proof {
                            assert(self@ =~= old(self)@.with_queue(
                                lock@,
                                QueueView { acquiring: false, ..old(self)@.queue(lock@) },
                            ));
                        }
                        self.grant_next_waiter(lock.clone(), *fence)
                    },
                    None => no_commands(),
                }
            },
            NodeEvent::Lost(lock) => {
                match self.locks.find(lock.as_str()) {
                    Some(i) => self.lose(i, lock),
                    None => no_commands(),
                }
            },
            NodeEvent::Info(_) => no_commands(),
        }
    }

    /// The node has lost the lock at position `i`.
    fn lose(&mut self, i: usize, lock: &LockId) -> (commands: Vec<Command>)
        requires
            old(self).locks.wf(),
            old(self).holders.wf(),
            i < old(self)@.locks.keys.len(),
            old(self)@.locks.keys[i as int] == lock@,
            old(self)@.locks.map.contains_key(lock@),
        ensures
            final(self).locks.wf(),
            final(self).holders.wf(),
            final(self)@ == old(self)@.on_lost(lock@).0,
            command_views(commands@) == old(self)@.on_lost(lock@).1,
    {
        let queue = self.locks.value_mut(i);
        let ghost q = queue@;
        let mut holder: Option<Holder> = None;
        std::mem::swap(&mut holder, &mut queue.holder);
        assert(queue@ =~= QueueView { holder: None, ..q });
        let again = queue.waiters.len() > 0 && !queue.acquiring;
        if again {
            queue.set_acquiring(true);
        }
        let ghost now = *queue;
        assert(now@ =~= QueueView { holder: None, acquiring: q.acquiring || again, ..q });
        if let Some(h) = holder {
            let _ = self.holders.remove(h.token.as_str());
            drop_waiter(&mut self.waiter_holders, h.waiter);
        }
        assert(self@ =~= old(self)@.on_lost(lock@).0);
        if again {
            one_command(Command::Acquire(lock.clone()))
        } else {
            no_commands()
        }
    }

    /// Say whether the waiter that was offered a lock was still there; if not,
    /// the next one is offered the lock.
    pub fn settle(&mut self, taken: bool) -> (commands: Vec<Command>)
        requires
            old(self).wf(),
            old(self)@.next_holder < u64::MAX,
        ensures
            final(self).wf(),
            final(self)@ == old(self)@.settle(taken).0,
            command_views(commands@) == old(self)@.settle(taken).1,
    {
        proof {
            self@.lemma_settle_wf(taken);
        }
        let mut offered: Option<Offered> = None;
        std::mem::swap(&mut offered, &mut self.offered);
        let o = match offered {
            Some(o) => o,
            None => {
                assert(self@ =~= old(self)@);
                return no_commands();
            },
        };
        let ghost before = self@;
        if !taken {
            assert(before.grant(o.lock@, o.fence) == old(self)@.grant(o.lock@, o.fence)) by {
                assert(before.grant(o.lock@, o.fence).0 =~= old(self)@.grant(
                    o.lock@,
                    o.fence,
                ).0);
            }
            return self.grant_next_waiter(o.lock, o.fence);
        }
        let i: usize = match self.locks.find(o.lock.as_str()) {
            Some(i) => i,
            None => {
                return no_commands();
            },
        };
        let ghost view = o@;
        drop_waiter(&mut self.waiter_holders, o.waiter.id);
        let ghost entries = self.waiter_holders@;
        self.waiter_holders.push((o.waiter.id, o.token.clone()));
        proof {
            assert(entry_views(self.waiter_holders@) =~= entry_views(entries).push(
                (o.waiter.id, o.token@),
            ));
        }
        let queue = self.locks.value_mut(i);
        queue.set_holder(
            Some(
                Holder { token: o.token.clone(), waiter: o.waiter.id, resource: o.waiter.resource },
            ),
        );
        let ghost now = *queue;
        self.holders.push(o.token, o.lock);
        assert(self@ =~= old(self)@.taken(view));
        no_commands()
    }

    /// Release with a holder token, a lock by name if one is given.
    pub fn release_holder(&mut self, lock: Option<&str>, token: &str) -> (r: (
        Result<ClientRelease, ClientError>,
        Vec<Command>,
    ))
        requires
            old(self).wf(),
            old(self)@.offered is None,
        ensures
            final(self).wf(),
            ({
                let (c, result, asked) = old(self)@.release(
                    match lock {
                        Some(l) => Some(l@),
                        None => None,
                    },
                    token@,
                );
                &&& final(self)@ == c
                &&& command_views(r.1@) == asked
                &&& match r.0 {
                    Ok(x) => result == Ok::<ReleaseView, ClientError>(x@),
                    Err(e) => result == Err::<ReleaseView, ClientError>(e),
                }
            }),
    {
        let ghost name = match lock {
            Some(l) => Some(l@),
            None => None,
        };
        proof {
            self@.lemma_release_wf(name, token@);
        }
        let h: usize = match self.holders.find(token) {
            Some(h) => h,
            None => {
                return (Err(ClientError::NotHeld), no_commands());
            },
        };
        let held: LockId = self.holders.value(h).clone();
        if let Some(want) = lock {
            if !str_eq(want, held.as_str()) {
                return (Err(ClientError::HolderMismatch), no_commands());
            }
        }
        proof {
            assert(self@.holders.map.contains_key(token@));
            assert(self@.locks.map.contains_key(held@));
        }
        let i: usize = match self.locks.find(held.as_str()) {
            Some(i) => i,
            None => {
                return (Err(ClientError::NotHeld), no_commands());
            },
        };
        let queue = self.locks.value(i);
        let result: ClientRelease = match &queue.holder {
            None => {
                let _ = self.holders.remove_at(h);
                assert(self@ =~= old(self)@.release(name, token@).0);
                return (Err(ClientError::NotHeld), no_commands());
            },
            Some(current) => {
                if !str_eq(current.token.as_str(), token) {
                    return (Err(ClientError::HolderMismatch), no_commands());
                }
                current.resource.release()
            },
        };
        let queue = self.locks.value_mut(i);
        let ghost q = queue@;
        queue.set_holder(None);
        let again = queue.waiters.len() > 0 && !queue.acquiring;
        if again {
            queue.set_acquiring(true);
        }
        let ghost now = *queue;
        assert(now@ =~= QueueView { holder: None, acquiring: q.acquiring || again, ..q });
        let _ = self.holders.remove_at(h);
        drop_token(&mut self.waiter_holders, token);
        assert(self@ =~= old(self)@.release(name, token@).0);
        let ghost lock_view = held@;
        if again {
            let mut commands = one_command(Command::Release(held.clone()));
            let ghost was = commands@;
            commands.push(Command::Acquire(held));
            proof {
                assert(command_views(commands@) =~= command_views(was).push(
                    CommandView::Acquire(lock_view),
                ));
                assert(command_views(commands@) =~= seq![
                    CommandView::Release(lock_view),
                    CommandView::Acquire(lock_view),
                ]);
            }
            (Ok(result), commands)
        } else {
            (Ok(result), one_command(Command::Release(held)))
        }
    }

    /// `waiter` no longer wants `lock`.
    pub fn cancel_acquire(&mut self, lock: &str, waiter: WaiterId) -> (commands: Vec<Command>)
        requires
            old(self).wf(),
            old(self)@.offered is None,
        ensures
            final(self).wf(),
            final(self)@ == old(self)@.cancel(lock@, waiter).0,
            command_views(commands@) == old(self)@.cancel(lock@, waiter).1,
    {
        proof {
            self@.lemma_cancel_wf(lock@, waiter);
        }
        if let Some(i) = self.locks.find(lock) {
            let queue = self.locks.value_mut(i);
            let found = queue.remove(waiter);
            let ghost now = *queue;
            proof {
                if !found {
                    old(self)@.locks.lemma_put_same(lock@);
                }
            }
            if found {
                assert(self@ =~= old(self)@.cancel(lock@, waiter).0);
                return no_commands();
            }
            assert(self@ =~= old(self)@);
        }
        match find_token(&self.waiter_holders, waiter) {
            Some(token) => {
                let (_, commands) = self.release_holder(None, token.as_str());
                commands
            },
            None => no_commands(),
        }
    }
}

} // verus!
