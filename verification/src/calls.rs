//! What comes of a client's call: what it asks of the coordinator, what it is told in the
//! end, and what it gives back.
//!
//! The laws follow a call from answer to answer. The client that hears an answer may have
//! made other calls meanwhile, so each answer is heard by a client of its own.
use vstd::prelude::*;

use vstd::utf8::*;

use crate::client_api::{
    gate_lock, lemma_slot_index, nth_id, rw_token, slot_index, slot_lock, AcquireView, AnswerView,
    AskView, BundleView, CallView, ClientAcquire, ClientError, ClientRelease, ClientRwAcquire,
    ClientSemaphoreAcquire, HeardView, HeldView, LockClientView, ReleaseView,
    ResourceView, RwAcquireView, RwMode, SemaphoreAcquireView, SlotKind, SlotView, StageView,
    WaiterId, WonView, MAX_SEMAPHORE_LIMIT, MIN_SEMAPHORE_LIMIT,
};
use crate::text::{decimal, hex_number, hex_text};
use crate::types::Fence;

verus! {

/// The call is over, with this result, and asks for nothing more.
pub open spec fn ends(call: CallView, r: Result<AnswerView, ClientError>) -> bool {
    &&& call.stage == StageView::Done(r)
    &&& call.asks.len() == 0
}

/// The call goes on, and asks for this alone.
pub open spec fn asks_for(call: CallView, ask: AskView) -> bool {
    &&& !(call.stage is Done)
    &&& call.asks.len() == 1
    &&& call.asks[0] == ask
}

/// Nothing happens.
pub open spec fn waits(call: CallView, stage: StageView) -> bool {
    &&& call.stage == stage
    &&& call.asks.len() == 0
}

/// The name of the lock behind a permit or a slot.
pub open spec fn slot_name(kind: SlotKind, name: Seq<char>, limit: u32, permit: u32) -> Seq<char> {
    match kind {
        SlotKind::Permit => "__lmx_sem_v1:"@ + decimal(limit as nat) + ":"@ + decimal(
            permit as nat,
        ) + ":"@ + hex_text(encode_utf8(name)),
        SlotKind::Reader => "__lmx_rw_v1:"@ + decimal(limit as nat) + ":slot:"@ + decimal(
            permit as nat,
        ) + ":"@ + hex_text(encode_utf8(name)),
    }
}

/// The name of the lock of the admission gate.
pub open spec fn gate_name(name: Seq<char>, limit: u32) -> Seq<char> {
    "__lmx_rw_v1:"@ + decimal(limit as nat) + ":gate:"@ + hex_text(encode_utf8(name))
}

// ---- what is refused ----------------------------------------------------------------------------
/// **Limits are between 2 and 100.** Semaphores and RW locks with an empty name or another
/// limit are refused at once, the name first; so is a lock with an empty name. Nothing is
/// asked for, and the client is as before. Everything else is asked for.
pub proof fn law_bad_resources_are_refused(c: LockClientView, name: Seq<char>, limit: u32)
    ensures
        MIN_SEMAPHORE_LIMIT == 2,
        MAX_SEMAPHORE_LIMIT == 100,
        name.len() == 0 ==> c.acquire(name).0 == c && ends(
            c.acquire(name).1,
            Err(ClientError::EmptyLock),
        ),
        name.len() == 0 ==> {
            &&& c.acquire_semaphore(name, limit).0 == c
            &&& ends(c.acquire_semaphore(name, limit).1, Err(ClientError::EmptyLock))
            &&& c.acquire_read(name, limit).0 == c
            &&& ends(c.acquire_read(name, limit).1, Err(ClientError::EmptyLock))
            &&& c.acquire_write(name, limit).0 == c
            &&& ends(c.acquire_write(name, limit).1, Err(ClientError::EmptyLock))
        },
        name.len() > 0 && (limit < 2 || limit > 100) ==> {
            &&& c.acquire_semaphore(name, limit).0 == c
            &&& ends(c.acquire_semaphore(name, limit).1, Err(ClientError::BadLimit))
            &&& c.acquire_read(name, limit).0 == c
            &&& ends(c.acquire_read(name, limit).1, Err(ClientError::BadLimit))
            &&& c.acquire_write(name, limit).0 == c
            &&& ends(c.acquire_write(name, limit).1, Err(ClientError::BadLimit))
        },
        name.len() > 0 && 2 <= limit <= 100 ==> {
            &&& !(c.acquire_semaphore(name, limit).1.stage is Done)
            &&& !(c.acquire_read(name, limit).1.stage is Done)
            &&& !(c.acquire_write(name, limit).1.stage is Done)
        },
        name.len() > 0 ==> !(c.acquire(name).1.stage is Done),
{
}

/// **Errors have names.** Every error has its own name, its own message and its status.
pub proof fn law_errors_have_names(e: ClientError)
    ensures
        e is Stopped <==> e.name() == "stopped"@,
        e is EmptyLock <==> e.name() == "empty_lock"@,
        e is BadLimit <==> e.name() == "bad_limit"@,
        e is NotHeld <==> e.name() == "not_held"@,
        e is HolderMismatch <==> e.name() == "holder_mismatch"@,
        e is Stopped ==> e.http_status() == 503 && e.message() == "node stopped"@,
        e is EmptyLock ==> e.http_status() == 400 && e.message() == "lock must not be empty"@,
        e is BadLimit ==> e.http_status() == 400 && e.message()
            == "limit must be between 2 and 100"@,
        e is NotHeld ==> e.http_status() == 404 && e.message()
            == "holder token does not refer to a held lock"@,
        e is HolderMismatch ==> e.http_status() == 409 && e.message()
            == "holder token does not own that lock"@,
{
    reveal_strlit("stopped");
    reveal_strlit("empty_lock");
    reveal_strlit("bad_limit");
    reveal_strlit("not_held");
    reveal_strlit("holder_mismatch");
    assert("stopped"@[0] == 's');
    assert("empty_lock"@[0] == 'e');
    assert("bad_limit"@[0] == 'b');
    assert("not_held"@[0] == 'n');
    assert("holder_mismatch"@[0] == 'h');
}

/// **Names stand for themselves.** The locks behind permits, slots and the admission gate
/// have the resource's name in hexadecimal, its limit and, but for the admission gate, the
/// permit in their names; tokens of RW locks are counted in sixteen hexadecimal digits.
pub proof fn law_names_stand_for_themselves(
    kind: SlotKind,
    name: Seq<char>,
    limit: u32,
    permit: u32,
    n: nat,
)
    ensures
        slot_lock(kind, name, limit, permit) == slot_name(kind, name, limit, permit),
        gate_lock(name, limit) == gate_name(name, limit),
        rw_token(n) == "rw"@ + hex_number(n, 16),
        RwMode::Read.name() == "read"@,
        RwMode::Write.name() == "write"@,
{
}

// ---- locks ----------------------------------------------------------------------------------------
/// **A call for a lock gets the lock.** It asks for the lock alone, with an id of its own,
/// and is told the coordinator's answer as it is: the lock, its fence and its holder token.
/// The answer to a release is not for it.
pub proof fn law_lock_calls_get_the_lock(
    c: LockClientView,
    d: LockClientView,
    lock: Seq<char>,
    w: WaiterId,
    a: AcquireView,
    e: ClientError,
    r: Result<ReleaseView, ClientError>,
)
    requires
        lock.len() > 0,
    ensures
        ({
            let (c2, call) = c.acquire(lock);
            &&& asks_for(
                call,
                AskView::Acquire {
                    lock,
                    waiter: c.next_waiter,
                    resource: ResourceView::Lock { lock },
                },
            )
            &&& c.next_waiter < u64::MAX ==> c2.next_waiter == c.next_waiter + 1
            &&& c.next_waiter == u64::MAX ==> c2.next_waiter == 0
            &&& c2.bundles == c.bundles
            &&& ends(
                d.hear(call.stage, HeardView::Acquired(w, Ok(a))).1,
                Ok(AnswerView::Lock(a)),
            )
            &&& ends(d.hear(call.stage, HeardView::Acquired(w, Err(e))).1, Err(e))
            &&& ends(d.hear(call.stage, HeardView::Stopped).1, Err(ClientError::Stopped))
            &&& waits(d.hear(call.stage, HeardView::Released(r)).1, call.stage)
            &&& d.hear(call.stage, HeardView::Acquired(w, Ok(a))).0 == d
        }),
{
}

// ---- slots ----------------------------------------------------------------------------------------
/// All the slots of a resource, each with an id of its own.
pub open spec fn every_slot(
    pending: Seq<SlotView>,
    kind: SlotKind,
    name: Seq<char>,
    limit: u32,
) -> bool {
    &&& pending.len() == limit
    &&& forall|i: int|
        0 <= i < limit ==> (#[trigger] pending[i]).permit == i && pending[i].lock == slot_name(
            kind,
            name,
            limit,
            i as u32,
        )
    &&& distinct_ids(pending)
}

/// No two slots have the same id.
pub open spec fn distinct_ids(pending: Seq<SlotView>) -> bool {
    forall|i: int, j: int|
        #![trigger pending[i], pending[j]]
        0 <= i < j < pending.len() ==> pending[i].waiter != pending[j].waiter
}

/// The slot of an id.
proof fn lemma_slot_at(pending: Seq<SlotView>, i: int)
    requires
        distinct_ids(pending),
        0 <= i < pending.len(),
    ensures
        slot_index(pending, pending[i].waiter) == i,
{
    lemma_slot_index(pending, pending[i].waiter);
    let k = slot_index(pending, pending[i].waiter);
    if k < i {
        assert(pending[k].waiter == pending[i].waiter);
    }
    if k > i {
        assert(pending[i].waiter != pending[i].waiter);
    }
}

/// Ids that are given out in a row differ.
proof fn lemma_ids_differ(first: u64, i: nat, j: nat)
    requires
        i < j < 0x1_0000_0000,
    ensures
        nth_id(first, i) != nth_id(first, j),
{
    let m: int = 0x1_0000_0000_0000_0000;
    let a: int = first + i;
    let b: int = first + j;
    assert(0 <= a < 2 * m && 0 <= b < 2 * m);
    if a < m && b < m {
        assert(a % m == a && b % m == b);
    } else if a >= m {
        assert(a % m == a - m) by {
            vstd::arithmetic::div_mod::lemma_fundamental_div_mod_converse_mod(a, m, 1, a - m);
        }
        assert(b % m == b - m) by {
            vstd::arithmetic::div_mod::lemma_fundamental_div_mod_converse_mod(b, m, 1, b - m);
        }
    } else {
        assert(a % m == a);
        assert(b % m == b - m) by {
            vstd::arithmetic::div_mod::lemma_fundamental_div_mod_converse_mod(b, m, 1, b - m);
        }
    }
}

/// The slots that a client asks for are all of them.
proof fn lemma_every_slot(c: LockClientView, kind: SlotKind, name: Seq<char>, limit: u32)
    requires
        limit <= 100,
    ensures
        every_slot(c.slots(kind, name, limit), kind, name, limit),
{
    let pending = c.slots(kind, name, limit);
    assert forall|i: int, j: int|
        #![trigger pending[i], pending[j]]
        0 <= i < j < pending.len() implies pending[i].waiter != pending[j].waiter by {
        lemma_ids_differ(c.next_waiter, i as nat, j as nat);
    }
}

/// **A semaphore call asks for every permit**, each with an id of its own and for what it
/// is.
pub proof fn law_semaphore_calls_ask_for_every_permit(
    c: LockClientView,
    name: Seq<char>,
    limit: u32,
)
    requires
        name.len() > 0,
        2 <= limit <= 100,
    ensures
        ({
            let call = c.acquire_semaphore(name, limit).1;
            &&& c.next_waiter + limit <= u64::MAX ==> c.acquire_semaphore(name, limit).0.next_waiter
                == c.next_waiter + limit
            &&& c.acquire_semaphore(name, limit).0.bundles == c.bundles
            &&& call.stage matches StageView::Semaphore { name: of, limit: max, pending }
                && of == name && max == limit && every_slot(
                pending,
                SlotKind::Permit,
                name,
                limit,
            ) && call.asks.len() == limit && forall|i: int|
                0 <= i < limit ==> #[trigger] call.asks[i] == (AskView::Acquire {
                    lock: slot_name(SlotKind::Permit, name, limit, i as u32),
                    waiter: pending[i].waiter,
                    resource: ResourceView::Semaphore { name, limit, permit: i as u32 },
                })
        }),
{
    lemma_every_slot(c, SlotKind::Permit, name, limit);
}

/// Withdraws from every slot but the `i`-th.
pub open spec fn withdraws(asks: Seq<AskView>, pending: Seq<SlotView>, i: int) -> bool {
    forall|j: int|
        0 <= j < pending.len() && j != i ==> asks.contains(
            AskView::CancelAcquire {
                lock: (#[trigger] pending[j]).lock,
                waiter: pending[j].waiter,
            },
        )
}

/// The withdrawals are those from the other slots.
proof fn lemma_withdraws(asks: Seq<AskView>, pending: Seq<SlotView>, i: int)
    requires
        0 <= i < pending.len(),
        asks.len() >= pending.len() - 1,
        asks.take(pending.len() - 1) == crate::client_api::cancellations(pending.remove(i)),
    ensures
        withdraws(asks, pending, i),
{
    let rest = pending.remove(i);
    let gone = crate::client_api::cancellations(rest);
    assert forall|j: int| 0 <= j < pending.len() && j != i implies asks.contains(
        AskView::CancelAcquire { lock: (#[trigger] pending[j]).lock, waiter: pending[j].waiter },
    ) by {
        let k = if j < i {
            j
        } else {
            j - 1
        };
        assert(rest[k] == pending[j]);
        assert(gone[k] == asks.take(pending.len() - 1)[k]);
        assert(asks[k] == (AskView::CancelAcquire {
            lock: pending[j].lock,
            waiter: pending[j].waiter,
        }));
    }
}

/// **A semaphore call is told its own permit.** When one of the permits that it waits for
/// is acquired, it is told that permit, with the fence and the holder token of that very
/// acquisition, and withdraws from all the others.
pub proof fn law_semaphore_calls_are_told_their_permit(
    c: LockClientView,
    name: Seq<char>,
    limit: u32,
    pending: Seq<SlotView>,
    i: int,
    a: AcquireView,
)
    requires
        distinct_ids(pending),
        0 <= i < pending.len(),
    ensures
        ({
            let (d, call) = c.hear(
                StageView::Semaphore { name, limit, pending },
                HeardView::Acquired(pending[i].waiter, Ok(a)),
            );
            &&& d == c
            &&& call.stage == StageView::Done(
                Ok(
                    AnswerView::Semaphore(
                        SemaphoreAcquireView {
                            semaphore: name,
                            limit,
                            permit: pending[i].permit,
                            fence: a.fence,
                            holder: a.holder,
                        },
                    ),
                ),
            )
            &&& call.asks.len() == pending.len() - 1
            &&& withdraws(call.asks, pending, i)
        }),
{
    lemma_slot_at(pending, i);
    let (d, call) = c.hear(
        StageView::Semaphore { name, limit, pending },
        HeardView::Acquired(pending[i].waiter, Ok(a)),
    );
    assert(call.asks.take(pending.len() - 1) =~= call.asks);
    lemma_withdraws(call.asks, pending, i);
}

/// **What cannot be had is waited for no more.** While other slots are left, a refusal of
/// one goes by; the refusal of the last ends the call, and so does the end of the node.
pub proof fn law_refusals_leave_the_other_slots(
    c: LockClientView,
    name: Seq<char>,
    limit: u32,
    gate: HeldView,
    pending: Seq<SlotView>,
    i: int,
    e: ClientError,
    r: Result<ReleaseView, ClientError>,
)
    requires
        distinct_ids(pending),
        0 <= i < pending.len(),
    ensures
        ({
            let sem = StageView::Semaphore { name, limit, pending };
            let read = StageView::ReadSlot { name, limit, gate, pending };
            let refused = HeardView::Acquired(pending[i].waiter, Err(e));
            &&& pending.len() > 1 ==> waits(
                c.hear(sem, refused).1,
                StageView::Semaphore { name, limit, pending: pending.remove(i) },
            ) && waits(
                c.hear(read, refused).1,
                StageView::ReadSlot { name, limit, gate, pending: pending.remove(i) },
            )
            &&& pending.len() == 1 ==> ends(c.hear(sem, refused).1, Err(e)) && asks_for(
                c.hear(read, refused).1,
                AskView::Release { lock: Some(gate.lock), holder: gate.holder },
            ) && c.hear(read, refused).1.stage == (StageView::ReadRelease {
                name,
                limit,
                slot: Err(e),
            })
            &&& ends(c.hear(sem, HeardView::Stopped).1, Err(ClientError::Stopped))
            &&& c.hear(read, HeardView::Stopped).1.stage == (StageView::ReadRelease {
                name,
                limit,
                slot: Err(ClientError::Stopped),
            })
            &&& waits(c.hear(sem, HeardView::Released(r)).1, sem)
            &&& waits(c.hear(read, HeardView::Released(r)).1, read)
        }),
{
    lemma_slot_at(pending, i);
}

/// **What was not asked for is given back.** A lock that is acquired for an id that nobody
/// waits with is given back at once, with its own holder token.
pub proof fn law_strays_are_given_back(
    c: LockClientView,
    name: Seq<char>,
    limit: u32,
    gate: HeldView,
    pending: Seq<SlotView>,
    w: WaiterId,
    a: AcquireView,
)
    requires
        forall|i: int| 0 <= i < pending.len() ==> (#[trigger] pending[i]).waiter != w,
    ensures
        ({
            let sem = StageView::Semaphore { name, limit, pending };
            let read = StageView::ReadSlot { name, limit, gate, pending };
            let got = HeardView::Acquired(w, Ok(a));
            &&& c.hear(sem, got).1.stage == sem
            &&& asks_for(c.hear(sem, got).1, AskView::Release { lock: None, holder: a.holder })
            &&& c.hear(read, got).1.stage == read
            &&& asks_for(
                c.hear(read, got).1,
                AskView::Release { lock: Some(a.lock), holder: a.holder },
            )
        }),
{
    lemma_slot_index(pending, w);
}

// ---- readers --------------------------------------------------------------------------------------
/// **A reader goes through the admission gate to the slots.** It asks for the admission
/// gate's lock alone. When it has that, it asks for every slot, each with an id of its own.
pub proof fn law_readers_go_through_the_admission_gate(
    c: LockClientView,
    d: LockClientView,
    name: Seq<char>,
    limit: u32,
    w: WaiterId,
    a: AcquireView,
    e: ClientError,
)
    requires
        name.len() > 0,
        2 <= limit <= 100,
    ensures
        ({
            let call = c.acquire_read(name, limit).1;
            let next = d.hear(call.stage, HeardView::Acquired(w, Ok(a))).1;
            &&& d.next_waiter + limit <= u64::MAX ==> d.hear(
                call.stage,
                HeardView::Acquired(w, Ok(a)),
            ).0.next_waiter == d.next_waiter + limit
            &&& asks_for(
                call,
                AskView::Acquire {
                    lock: gate_name(name, limit),
                    waiter: c.next_waiter,
                    resource: ResourceView::Lock { lock: gate_name(name, limit) },
                },
            )
            &&& ends(d.hear(call.stage, HeardView::Acquired(w, Err(e))).1, Err(e))
            &&& ends(d.hear(call.stage, HeardView::Stopped).1, Err(ClientError::Stopped))
            &&& next.stage matches StageView::ReadSlot { name: of, limit: max, gate, pending }
                && of == name && max == limit && gate == (HeldView {
                lock: gate_name(name, limit),
                holder: a.holder,
            }) && every_slot(pending, SlotKind::Reader, name, limit) && next.asks.len() == limit
                && forall|i: int|
                0 <= i < limit ==> #[trigger] next.asks[i] == (AskView::Acquire {
                    lock: slot_name(SlotKind::Reader, name, limit, i as u32),
                    waiter: pending[i].waiter,
                    resource: ResourceView::Lock {
                        lock: slot_name(SlotKind::Reader, name, limit, i as u32),
                    },
                })
        }),
{
    lemma_every_slot(d, SlotKind::Reader, name, limit);
}

/// What a reader is told when it acquires the `i`-th of the slots that it waits for, and the
/// admission gate is then given back.
pub open spec fn reader_is_told(
    c: LockClientView,
    d: LockClientView,
    name: Seq<char>,
    limit: u32,
    gate: HeldView,
    pending: Seq<SlotView>,
    i: int,
    a: AcquireView,
    r: ReleaseView,
) -> StageView {
    let won = c.hear(
        StageView::ReadSlot { name, limit, gate, pending },
        HeardView::Acquired(pending[i].waiter, Ok(a)),
    ).1;
    d.hear(won.stage, HeardView::Released(Ok(r))).1.stage
}

/// **A reader is told the fence of its slot.** When a reader has acquired one of its slots,
/// it withdraws from the others and gives the admission gate back, with the holder token of
/// the admission gate. Then its call ends well: it is told its slot's number, and the fence
/// of that very acquisition as the coordinator handed it over. What it holds from then on,
/// under a token of its own, is the slot with the acquisition's holder token.
pub proof fn law_readers_are_told_the_fence_of_their_slot(
    c: LockClientView,
    d: LockClientView,
    name: Seq<char>,
    limit: u32,
    gate: HeldView,
    pending: Seq<SlotView>,
    i: int,
    a: AcquireView,
    r: ReleaseView,
)
    requires
        distinct_ids(pending),
        0 <= i < pending.len(),
    ensures
        ({
            let won = c.hear(
                StageView::ReadSlot { name, limit, gate, pending },
                HeardView::Acquired(pending[i].waiter, Ok(a)),
            ).1;
            let (d2, done) = d.hear(won.stage, HeardView::Released(Ok(r)));
            let token = "rw"@ + hex_number(d.next_rw_holder as nat, 16);
            &&& won.asks.len() == pending.len()
            &&& withdraws(won.asks, pending, i)
            &&& won.asks.last() == (AskView::Release {
                lock: Some(gate.lock),
                holder: gate.holder,
            })
            &&& ends(
                done,
                Ok(
                    AnswerView::Rw(
                        RwAcquireView {
                            rwlock: name,
                            mode: RwMode::Read,
                            limit,
                            permit: Some(pending[i].permit),
                            fence: a.fence,
                            holder: token,
                        },
                    ),
                ),
            )
            &&& d2.bundles.get(token) == Some(
                BundleView {
                    name,
                    limit,
                    mode: RwMode::Read,
                    permit: Some(pending[i].permit),
                    parts: seq![HeldView { lock: pending[i].lock, holder: a.holder }],
                },
            )
            &&& d.next_rw_holder < u64::MAX ==> d2.next_rw_holder == d.next_rw_holder + 1
        }),
{
    lemma_slot_at(pending, i);
    let won = c.hear(
        StageView::ReadSlot { name, limit, gate, pending },
        HeardView::Acquired(pending[i].waiter, Ok(a)),
    ).1;
    assert(won.asks.take(pending.len() - 1) =~= crate::client_api::cancellations(
        pending.remove(i),
    ));
    lemma_withdraws(won.asks, pending, i);
}

/// **Later readers have greater fences.** Of two readers of an RW lock, whichever slots they
/// have, the one whose slot was acquired with the greater fence is told the greater fence.
/// So successive readers of one slot are told fences that grow, as the acquisitions of the
/// slot's lock do.
pub proof fn law_later_readers_have_greater_fences(
    c: LockClientView,
    d: LockClientView,
    c2: LockClientView,
    d2: LockClientView,
    name: Seq<char>,
    limit: u32,
    gate: HeldView,
    gate2: HeldView,
    pending: Seq<SlotView>,
    pending2: Seq<SlotView>,
    i: int,
    j: int,
    a: AcquireView,
    b: AcquireView,
    r: ReleaseView,
    r2: ReleaseView,
)
    requires
        distinct_ids(pending),
        distinct_ids(pending2),
        0 <= i < pending.len(),
        0 <= j < pending2.len(),
        a.fence < b.fence,
    ensures
        reader_is_told(c, d, name, limit, gate, pending, i, a, r) matches StageView::Done(
            Ok(AnswerView::Rw(first)),
        ) && reader_is_told(c2, d2, name, limit, gate2, pending2, j, b, r2) matches StageView::Done(
            Ok(AnswerView::Rw(second)),
        ) && first.fence < second.fence,
{
    law_readers_are_told_the_fence_of_their_slot(c, d, name, limit, gate, pending, i, a, r);
    law_readers_are_told_the_fence_of_their_slot(c2, d2, name, limit, gate2, pending2, j, b, r2);
}

/// **A reader that fails keeps nothing.** If the admission gate cannot be given back, the
/// slot is, with its holder token, and the reader is told why. If no slot could be had, the
/// reader is told why once the admission gate's answer is there, whatever it is.
pub proof fn law_failed_readers_keep_nothing(
    c: LockClientView,
    d: LockClientView,
    name: Seq<char>,
    limit: u32,
    won: WonView,
    e: ClientError,
    r: Result<ReleaseView, ClientError>,
)
    ensures
        ({
            let got = StageView::ReadRelease { name, limit, slot: Ok(won) };
            let missed = StageView::ReadRelease { name, limit, slot: Err(e) };
            let undoing = c.hear(got, HeardView::Released(Err(e))).1;
            &&& asks_for(
                undoing,
                AskView::Release { lock: Some(won.part.lock), holder: won.part.holder },
            )
            &&& ends(d.hear(undoing.stage, HeardView::Released(r)).1, Err(e))
            &&& ends(d.hear(undoing.stage, HeardView::Stopped).1, Err(e))
            &&& ends(c.hear(missed, HeardView::Released(r)).1, Err(e))
            &&& ends(c.hear(missed, HeardView::Stopped).1, Err(e))
            &&& c.hear(got, HeardView::Released(Err(e))).0 == c
            &&& c.hear(missed, HeardView::Released(r)).0 == c
        }),
{
}

// ---- writers --------------------------------------------------------------------------------------
/// A call that hears of one acquisition after the other, from the `k`-th on.
pub open spec fn hears_all(
    clients: Seq<LockClientView>,
    call: CallView,
    got: Seq<AcquireView>,
    k: nat,
) -> CallView
    decreases k,
{
    if k == 0 {
        call
    } else {
        clients[k - 1].hear(
            hears_all(clients, call, got, (k - 1) as nat).stage,
            HeardView::Acquired(0, Ok(got[k - 1])),
        ).1
    }
}

/// What a writer has after `k` acquisitions, the first of them that of the admission gate.
pub open spec fn writer_has(
    stage: StageView,
    name: Seq<char>,
    limit: u32,
    got: Seq<AcquireView>,
    k: nat,
) -> bool {
    &&& stage matches StageView::WriteSlot { name: of, limit: max, gate, fence, parts } && of
        == name && max == limit && gate == (HeldView {
        lock: gate_name(name, limit),
        holder: got[0].holder,
    }) && parts.len() == k - 1 && (forall|i: int|
        0 <= i < k - 1 ==> #[trigger] parts[i] == (HeldView {
            lock: slot_name(SlotKind::Reader, name, limit, i as u32),
            holder: got[i + 1].holder,
        })) && greatest_fence(got.take(k as int), fence)
}

/// `fence` is the greatest of the fences.
pub open spec fn greatest_fence(got: Seq<AcquireView>, fence: Fence) -> bool {
    &&& exists|i: int| 0 <= i < got.len() && (#[trigger] got[i]).fence == fence
    &&& forall|i: int| 0 <= i < got.len() ==> (#[trigger] got[i]).fence <= fence
}

/// One more acquisition.
proof fn lemma_greatest_fence(got: Seq<AcquireView>, k: int, fence: Fence)
    requires
        0 < k < got.len(),
        greatest_fence(got.take(k), fence),
    ensures
        greatest_fence(
            got.take(k + 1),
            if got[k].fence > fence {
                got[k].fence
            } else {
                fence
            },
        ),
{
    let s = got.take(k);
    let t = got.take(k + 1);
    let i = choose|i: int| 0 <= i < s.len() && (#[trigger] s[i]).fence == fence;
    assert(t[i] == s[i]);
    assert(t[k] == got[k]);
    assert forall|j: int| 0 <= j < t.len() implies (#[trigger] t[j]).fence <= (if got[k].fence
        > fence {
        got[k].fence
    } else {
        fence
    }) by {
        if j < k {
            assert(t[j] == s[j]);
        }
    }
}

/// A writer takes the slots one by one.
proof fn lemma_writer_has(
    clients: Seq<LockClientView>,
    call: CallView,
    name: Seq<char>,
    limit: u32,
    got: Seq<AcquireView>,
    k: nat,
)
    requires
        2 <= limit <= 100,
        call.stage == (StageView::WriteGate { name, limit }),
        got.len() == limit + 1,
        clients.len() == got.len(),
        1 <= k <= limit,
    ensures
        writer_has(hears_all(clients, call, got, k).stage, name, limit, got, k),
        asks_for(
            hears_all(clients, call, got, k),
            AskView::Acquire {
                lock: slot_name(SlotKind::Reader, name, limit, (k - 1) as u32),
                waiter: clients[k - 1].next_waiter,
                resource: ResourceView::Lock {
                    lock: slot_name(SlotKind::Reader, name, limit, (k - 1) as u32),
                },
            },
        ),
    decreases k,
{
    reveal_with_fuel(hears_all, 2);
    if k == 1 {
        assert(got.take(1)[0] == got[0]);
        assert(hears_all(clients, call, got, 0) == call);
    } else {
        lemma_writer_has(clients, call, name, limit, got, (k - 1) as nat);
        let before = hears_all(clients, call, got, (k - 1) as nat).stage;
        if let StageView::WriteSlot { name: of, limit: max, gate, fence, parts } = before {
            lemma_greatest_fence(got, k - 1, fence);
        }
    }
}

/// **A writer takes the admission gate and every slot, in order.** It asks for the admission
/// gate's lock, then for one slot after the other, each when it has the one before. With the
/// last one its call ends well: it is told the greatest fence of all its acquisitions. What
/// it holds from then on, under a token of its own, is all of them.
pub proof fn law_writers_take_everything(
    c: LockClientView,
    clients: Seq<LockClientView>,
    name: Seq<char>,
    limit: u32,
    got: Seq<AcquireView>,
)
    requires
        name.len() > 0,
        2 <= limit <= 100,
        got.len() == limit + 1,
        clients.len() == got.len(),
    ensures
        ({
            let call = c.acquire_write(name, limit).1;
            let last = clients[limit as int];
            let before = hears_all(clients, call, got, limit as nat);
            let (after, done) = last.hear(
                before.stage,
                HeardView::Acquired(0, Ok(got[limit as int])),
            );
            let token = "rw"@ + hex_number(last.next_rw_holder as nat, 16);
            &&& asks_for(
                call,
                AskView::Acquire {
                    lock: gate_name(name, limit),
                    waiter: c.next_waiter,
                    resource: ResourceView::Lock { lock: gate_name(name, limit) },
                },
            )
            &&& forall|k: nat|
                1 <= k <= limit ==> asks_for(
                    #[trigger] hears_all(clients, call, got, k),
                    AskView::Acquire {
                        lock: slot_name(SlotKind::Reader, name, limit, (k - 1) as u32),
                        waiter: clients[k - 1].next_waiter,
                        resource: ResourceView::Lock {
                            lock: slot_name(SlotKind::Reader, name, limit, (k - 1) as u32),
                        },
                    },
                )
            &&& done.stage matches StageView::Done(Ok(AnswerView::Rw(told))) && told.rwlock == name
                && told.mode is Write && told.limit == limit && told.permit is None
                && greatest_fence(got, told.fence) && told.holder == token
            &&& done.asks.len() == 0
            &&& after.bundles.get(token) matches Some(b) && b.name == name && b.limit == limit
                && b.mode is Write && b.permit is None && b.parts.len() == limit + 1
                && b.parts[limit as int] == (HeldView {
                lock: gate_name(name, limit),
                holder: got[0].holder,
            }) && forall|i: int|
                0 <= i < limit ==> #[trigger] b.parts[i] == (HeldView {
                    lock: slot_name(SlotKind::Reader, name, limit, i as u32),
                    holder: got[i + 1].holder,
                })
        }),
{
    let call = c.acquire_write(name, limit).1;
    assert forall|k: nat| 1 <= k <= limit implies asks_for(
        #[trigger] hears_all(clients, call, got, k),
        AskView::Acquire {
            lock: slot_name(SlotKind::Reader, name, limit, (k - 1) as u32),
            waiter: clients[k - 1].next_waiter,
            resource: ResourceView::Lock {
                lock: slot_name(SlotKind::Reader, name, limit, (k - 1) as u32),
            },
        },
    ) by {
        lemma_writer_has(clients, call, name, limit, got, k);
    }
    lemma_writer_has(clients, call, name, limit, got, limit as nat);
    let before = hears_all(clients, call, got, limit as nat).stage;
    if let StageView::WriteSlot { name: of, limit: max, gate, fence, parts } = before {
        lemma_greatest_fence(got, limit as int, fence);
        assert(got.take(limit + 1) =~= got);
    }
}

/// **A writer that fails says why**, and keeps nothing: it gives back the slots that it has,
/// the last first, and the admission gate at the end.
pub proof fn law_failed_writers_say_why(
    c: LockClientView,
    d: LockClientView,
    name: Seq<char>,
    limit: u32,
    gate: HeldView,
    fence: Fence,
    parts: Seq<HeldView>,
    w: WaiterId,
    e: ClientError,
    error: ClientError,
    left: Seq<HeldView>,
    r: Result<ReleaseView, ClientError>,
)
    requires
        left.len() > 0,
    ensures
        ({
            let first = if parts.len() > 0 {
                parts.last()
            } else {
                gate
            };
            let failed = c.hear(
                StageView::WriteSlot { name, limit, gate, fence, parts },
                HeardView::Acquired(w, Err(e)),
            ).1;
            let undoing = d.hear(StageView::WriteUndo { error, left }, HeardView::Released(r)).1;
            &&& asks_for(
                failed,
                AskView::Release { lock: Some(first.lock), holder: first.holder },
            )
            &&& failed.stage matches StageView::WriteUndo { error: why, left: all } && why == e
                && all.len() == parts.len() + 1 && all.last() == gate && forall|i: int|
                0 <= i < parts.len() ==> #[trigger] all[i] == parts[parts.len() - 1 - i]
            &&& left.len() == 1 ==> ends(undoing, Err(error))
            &&& left.len() > 1 ==> asks_for(
                undoing,
                AskView::Release { lock: Some(left[1].lock), holder: left[1].holder },
            ) && undoing.stage == (StageView::WriteUndo { error, left: left.skip(1) })
            &&& ends(
                c.hear(
                    StageView::WriteGate { name, limit },
                    HeardView::Acquired(w, Err(e)),
                ).1,
                Err(e),
            )
        }),
{
}

// ---- releases -------------------------------------------------------------------------------------
/// **A release names what it releases.** A token of an RW lock releases that side of it, and
/// then it is no longer known; any other token is the coordinator's. By name, a lock is
/// released by the coordinator and an RW lock here, if the token is known and is of that RW
/// lock.
pub proof fn law_releases_name_what_they_release(
    c: LockClientView,
    lock: Seq<char>,
    holder: Seq<char>,
)
    requires
        c.wf(),
    ensures
        asks_for(
            c.release_lock(lock, holder).1,
            AskView::Release { lock: Some(lock), holder },
        ),
        c.release_lock(lock, holder).0 == c,
        match c.bundles.get(holder) {
            None => {
                &&& asks_for(c.release(holder).1, AskView::Release { lock: None, holder })
                &&& c.release(holder).0 == c
                &&& ends(c.release_rw_lock(lock, holder).1, Err(ClientError::NotHeld))
                &&& c.release_rw_lock(lock, holder).0 == c
            },
            Some(b) => {
                &&& asks_for(
                    c.release(holder).1,
                    AskView::Release { lock: Some(b.parts[0].lock), holder: b.parts[0].holder },
                )
                &&& c.release(holder).1.stage == (StageView::ReleaseBundle {
                    bundle: b,
                    next: 0,
                    first_error: None,
                })
                &&& c.release(holder).0.bundles.get(holder) is None
                &&& b.name == lock ==> c.release_rw_lock(lock, holder) == c.release(holder)
                &&& b.name != lock ==> ends(
                    c.release_rw_lock(lock, holder).1,
                    Err(ClientError::HolderMismatch),
                ) && c.release_rw_lock(lock, holder).0 == c
            },
        },
{
    if let Some(b) = c.bundles.get(holder) {
        assert(c.bundles.map[holder].wf());
    }
}

/// **A release is answered.** The coordinator's answer is passed on as it is. The parts of
/// an RW lock are given back one after the other, whatever the answers; at the end the
/// client is told the RW lock, its limit and its side, or the first error that there was.
pub proof fn law_releases_are_answered(
    c: LockClientView,
    bundle: BundleView,
    next: nat,
    r: ReleaseView,
    e: ClientError,
    error: ClientError,
)
    requires
        next < bundle.parts.len(),
    ensures
        ends(
            c.hear(StageView::Release, HeardView::Released(Ok(r))).1,
            Ok(AnswerView::Release(r)),
        ),
        ends(c.hear(StageView::Release, HeardView::Released(Err(e))).1, Err(e)),
        ends(c.hear(StageView::Release, HeardView::Stopped).1, Err(ClientError::Stopped)),
        ({
            let fine = StageView::ReleaseBundle { bundle, next, first_error: None };
            let bad = StageView::ReleaseBundle { bundle, next, first_error: Some(error) };
            let ok = HeardView::Released(Ok(r));
            let no = HeardView::Released(Err(e));
            if next + 1 < bundle.parts.len() {
                let part = bundle.parts[next as int + 1];
                let ask = AskView::Release { lock: Some(part.lock), holder: part.holder };
                &&& asks_for(c.hear(fine, ok).1, ask)
                &&& asks_for(c.hear(fine, no).1, ask)
                &&& asks_for(c.hear(bad, ok).1, ask)
                &&& asks_for(c.hear(bad, no).1, ask)
                &&& c.hear(fine, ok).1.stage == (StageView::ReleaseBundle {
                    bundle,
                    next: next + 1,
                    first_error: None,
                })
                &&& c.hear(fine, no).1.stage == (StageView::ReleaseBundle {
                    bundle,
                    next: next + 1,
                    first_error: Some(e),
                })
                &&& c.hear(bad, ok).1.stage == (StageView::ReleaseBundle {
                    bundle,
                    next: next + 1,
                    first_error: Some(error),
                })
                &&& c.hear(bad, no).1.stage == (StageView::ReleaseBundle {
                    bundle,
                    next: next + 1,
                    first_error: Some(error),
                })
            } else {
                &&& ends(
                    c.hear(fine, ok).1,
                    Ok(
                        AnswerView::Release(
                            ReleaseView {
                                lock: bundle.name,
                                semaphore: None,
                                limit: Some(bundle.limit),
                                permit: bundle.permit,
                                rwlock: Some(bundle.name),
                                mode: Some(bundle.mode),
                            },
                        ),
                    ),
                )
                &&& ends(c.hear(fine, no).1, Err(e))
                &&& ends(c.hear(bad, ok).1, Err(error))
                &&& ends(c.hear(bad, no).1, Err(error))
            }
        }),
{
}

/// **Answers that are not waited for are passed over.** Who waits for a lock passes over the
/// answers to releases, and who waits for the answer to a release passes over acquisitions.
pub proof fn law_other_answers_are_passed_over(
    c: LockClientView,
    stage: StageView,
    w: WaiterId,
    got: Result<AcquireView, ClientError>,
    r: Result<ReleaseView, ClientError>,
)
    ensures
        stage is Lock || stage is ReadGate || stage is WriteGate || stage is WriteSlot ==> c.hear(
            stage,
            HeardView::Released(r),
        ).0 == c && waits(c.hear(stage, HeardView::Released(r)).1, stage),
        stage is ReadRelease || stage is ReadUndo || stage is WriteUndo || stage is Release
            || stage is ReleaseBundle ==> c.hear(stage, HeardView::Acquired(w, got)).0 == c
            && waits(c.hear(stage, HeardView::Acquired(w, got)).1, stage),
{
}

/// **When the node stops, every call ends.** A call for a lock fails; a writer that has some
/// locks, a reader that waits for its admission gate to be given back, and a release of an RW
/// lock go on as after a refusal.
pub proof fn law_calls_end_when_the_node_stops(
    c: LockClientView,
    name: Seq<char>,
    limit: u32,
    gate: HeldView,
    fence: Fence,
    parts: Seq<HeldView>,
    won: WonView,
    bundle: BundleView,
    next: nat,
    first: Option<ClientError>,
    left: Seq<HeldView>,
    error: ClientError,
    w: WaiterId,
)
    ensures
        ends(
            c.hear(StageView::ReadGate { name, limit }, HeardView::Stopped).1,
            Err(ClientError::Stopped),
        ),
        ends(
            c.hear(StageView::WriteGate { name, limit }, HeardView::Stopped).1,
            Err(ClientError::Stopped),
        ),
        c.hear(StageView::WriteSlot { name, limit, gate, fence, parts }, HeardView::Stopped)
            == c.hear(
            StageView::WriteSlot { name, limit, gate, fence, parts },
            HeardView::Acquired(w, Err(ClientError::Stopped)),
        ),
        c.hear(StageView::ReadRelease { name, limit, slot: Ok(won) }, HeardView::Stopped)
            == c.hear(
            StageView::ReadRelease { name, limit, slot: Ok(won) },
            HeardView::Released(Err(ClientError::Stopped)),
        ),
        c.hear(
            StageView::ReleaseBundle { bundle, next, first_error: first },
            HeardView::Stopped,
        ) == c.hear(
            StageView::ReleaseBundle { bundle, next, first_error: first },
            HeardView::Released(Err(ClientError::Stopped)),
        ),
        c.hear(StageView::WriteUndo { error, left }, HeardView::Stopped) == c.hear(
            StageView::WriteUndo { error, left },
            HeardView::Released(Err(ClientError::Stopped)),
        ),
{
}

/// **Contents are complete**: what is said of an answer's content is said of the answer.
pub proof fn law_contents_are_complete(
    a: ClientAcquire,
    s: ClientSemaphoreAcquire,
    r: ClientRwAcquire,
    x: ClientRelease,
)
    ensures
        a@ == (AcquireView { lock: a.lock@, fence: a.fence, holder: a.holder@ }),
        s@ == (SemaphoreAcquireView {
            semaphore: s.semaphore@,
            limit: s.limit,
            permit: s.permit,
            fence: s.fence,
            holder: s.holder@,
        }),
        r@ == (RwAcquireView {
            rwlock: r.rwlock@,
            mode: r.mode,
            limit: r.limit,
            permit: r.permit,
            fence: r.fence,
            holder: r.holder@,
        }),
        x@.lock == x.lock@ && x@.limit == x.limit && x@.permit == x.permit && x@.mode == x.mode,
        x@.semaphore is Some <==> x.semaphore is Some,
        x@.rwlock is Some <==> x.rwlock is Some,
        x.semaphore matches Some(n) ==> x@.semaphore == Some(n@),
        x.rwlock matches Some(n) ==> x@.rwlock == Some(n@),
{
}

/// **A call that is over stays over**, whatever is heard.
pub proof fn law_calls_stay_over(
    c: LockClientView,
    r: Result<AnswerView, ClientError>,
    heard: HeardView,
)
    ensures
        ends(c.hear(StageView::Done(r), heard).1, r),
        c.hear(StageView::Done(r), heard).0 == c,
{
}

/// **A new client holds nothing** and counts from one.
pub proof fn law_new_clients_hold_nothing(holder: Seq<char>)
    ensures
        LockClientView::fresh().bundles.get(holder) is None,
        LockClientView::fresh().next_waiter == 1,
        LockClientView::fresh().next_rw_holder == 1,
{
}

} // verus!
