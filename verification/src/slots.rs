//! What holds of semaphores and RW locks, because of the locks they are made
//! of.
use vstd::prelude::*;
use vstd::set_lib::{lemma_int_range, lemma_len_subset, set_int_range};
use vstd::utf8::*;

use crate::client_api::{
    asking, bounded_error, gate_lock, give_back, lock_reply, release_reply, rw_token, slot_lock,
    undo, AcquireView, AnswerView, AskView, BundleView, CallView, ClientError, HeardView, HeldView,
    LockClientView, RwMode, SlotKind, StageView, WaiterId,
};
use crate::cluster::{after, spares, Event};
use crate::coordinator::{holder_token, law_one_token_per_lock, CoordinatorView};
use crate::exclusion::law_survivors_exclude_each_other;
use crate::quorum::QuorumPolicy;
use crate::text::{
    decimal, hex_number, hex_text, is_digit, law_hex_reads_back, lemma_bytes_determine_chars,
    lemma_decimal, lemma_hex_number_injective,
};
use crate::types::{Fence, NodeId};

verus! {

// ---- names ---------------------------------------------------------------------------------
/// A colon ends what has none.
proof fn lemma_cut(a: Seq<char>, x: Seq<char>, b: Seq<char>, y: Seq<char>)
    requires
        a.push(':') + x == b.push(':') + y,
        !a.contains(':'),
        !b.contains(':'),
    ensures
        a == b,
        x == y,
{
    let s = a.push(':') + x;
    let t = b.push(':') + y;
    if a.len() < b.len() {
        assert(t[a.len() as int] == b[a.len() as int]);
        assert(s[a.len() as int] == ':');
        assert(b.contains(b[a.len() as int]));
    } else if b.len() < a.len() {
        assert(s[b.len() as int] == a[b.len() as int]);
        assert(t[b.len() as int] == ':');
        assert(a.contains(a[b.len() as int]));
    }
    assert forall|i: int| 0 <= i < a.len() implies a[i] == b[i] by {
        assert(s[i] == a[i] && t[i] == b[i]);
    }
    assert(a =~= b);
    assert(s.len() == t.len());
    assert(x.len() == y.len());
    assert forall|i: int| 0 <= i < x.len() implies x[i] == y[i] by {
        assert(s[a.len() + 1 + i] == x[i]);
        assert(t[a.len() + 1 + i] == y[i]);
    }
    assert(x =~= y);
}

/// Numbers are written without a colon, and different ones differently.
proof fn lemma_number_text(a: nat, b: nat)
    ensures
        !decimal(a).contains(':'),
        decimal(a) == decimal(b) ==> a == b,
{
    lemma_decimal(a);
    lemma_decimal(b);
    if decimal(a).contains(':') {
        let i = decimal(a).index_of(':');
        assert(is_digit(decimal(a)[i]));
    }
}

/// Different names are written differently.
proof fn lemma_name_text(a: Seq<char>, b: Seq<char>)
    requires
        hex_text(encode_utf8(a)) == hex_text(encode_utf8(b)),
    ensures
        a == b,
{
    law_hex_reads_back(encode_utf8(a));
    law_hex_reads_back(encode_utf8(b));
    lemma_bytes_determine_chars(a, b);
}

/// A number and a name, with a colon between them.
spec fn tail(permit: u32, name: Seq<char>) -> Seq<char> {
    decimal(permit as nat).push(':') + hex_text(encode_utf8(name))
}

proof fn lemma_tail(p: u32, a: Seq<char>, q: u32, b: Seq<char>)
    requires
        tail(p, a) == tail(q, b),
    ensures
        p == q,
        a == b,
{
    lemma_number_text(p as nat, q as nat);
    lemma_number_text(q as nat, p as nat);
    lemma_cut(
        decimal(p as nat),
        hex_text(encode_utf8(a)),
        decimal(q as nat),
        hex_text(encode_utf8(b)),
    );
    lemma_name_text(a, b);
}

/// How slot names and gate names are put together.
proof fn lemma_shape(name: Seq<char>, limit: u32, permit: u32)
    ensures
        slot_lock(SlotKind::Permit, name, limit, permit) == "__lmx_sem_v1"@.push(':') + (decimal(
            limit as nat,
        ).push(':') + tail(permit, name)),
        slot_lock(SlotKind::Reader, name, limit, permit) == "__lmx_rw_v1"@.push(':') + (decimal(
            limit as nat,
        ).push(':') + ("slot"@.push(':') + tail(permit, name))),
        gate_lock(name, limit) == "__lmx_rw_v1"@.push(':') + (decimal(limit as nat).push(':') + (
        "gate"@.push(':') + hex_text(encode_utf8(name)))),
        !"__lmx_sem_v1"@.contains(':'),
        !"__lmx_rw_v1"@.contains(':'),
        !"slot"@.contains(':'),
        !"gate"@.contains(':'),
        "__lmx_sem_v1"@ != "__lmx_rw_v1"@,
        "slot"@ != "gate"@,
{
    reveal_strlit("__lmx_sem_v1");
    reveal_strlit("__lmx_rw_v1");
    reveal_strlit("__lmx_sem_v1:");
    reveal_strlit("__lmx_rw_v1:");
    reveal_strlit(":");
    reveal_strlit(":slot:");
    reveal_strlit(":gate:");
    reveal_strlit("slot");
    reveal_strlit("gate");
    assert("__lmx_sem_v1:"@ =~= "__lmx_sem_v1"@.push(':'));
    assert("__lmx_rw_v1:"@ =~= "__lmx_rw_v1"@.push(':'));
    let d = decimal(limit as nat);
    let h = hex_text(encode_utf8(name));
    assert(slot_lock(SlotKind::Permit, name, limit, permit) =~= "__lmx_sem_v1"@.push(':') + (
    d.push(':') + tail(permit, name)));
    assert(":slot:"@ =~= seq![':'] + "slot"@.push(':'));
    assert(":gate:"@ =~= seq![':'] + "gate"@.push(':'));
    assert(slot_lock(SlotKind::Reader, name, limit, permit) =~= "__lmx_rw_v1"@.push(':') + (
    d.push(':') + ("slot"@.push(':') + tail(permit, name))));
    assert(gate_lock(name, limit) =~= "__lmx_rw_v1"@.push(':') + (d.push(':') + ("gate"@.push(':')
        + h)));
    assert("slot"@[0] != "gate"@[0]);
    assert("__lmx_sem_v1"@.len() != "__lmx_rw_v1"@.len());
}

/// **Slots do not collide.** Locks behind slots are the same only for the same
/// kind of resource, name, limit and slot.
pub proof fn law_slot_locks_differ(
    kind1: SlotKind,
    name1: Seq<char>,
    limit1: u32,
    permit1: u32,
    kind2: SlotKind,
    name2: Seq<char>,
    limit2: u32,
    permit2: u32,
)
    requires
        slot_lock(kind1, name1, limit1, permit1) == slot_lock(kind2, name2, limit2, permit2),
    ensures
        kind1 == kind2,
        name1 == name2,
        limit1 == limit2,
        permit1 == permit2,
{
    lemma_shape(name1, limit1, permit1);
    lemma_shape(name2, limit2, permit2);
    lemma_number_text(limit1 as nat, limit2 as nat);
    lemma_number_text(limit2 as nat, limit1 as nat);
    let d1 = decimal(limit1 as nat);
    let d2 = decimal(limit2 as nat);
    let (t1, t2) = (tail(permit1, name1), tail(permit2, name2));
    let first = |k: SlotKind|
        if k is Permit {
            "__lmx_sem_v1"@
        } else {
            "__lmx_rw_v1"@
        };
    let rest = |k: SlotKind, t: Seq<char>|
        if k is Permit {
            t
        } else {
            "slot"@.push(':') + t
        };
    lemma_cut(
        first(kind1),
        d1.push(':') + rest(kind1, t1),
        first(kind2),
        d2.push(':') + rest(kind2, t2),
    );
    lemma_cut(d1, rest(kind1, t1), d2, rest(kind2, t2));
    if kind1 is Reader {
        lemma_cut("slot"@, t1, "slot"@, t2);
    }
    lemma_tail(permit1, name1, permit2, name2);
}

/// **Gates do not collide**, neither with each other nor with slots.
pub proof fn law_gate_locks_differ(
    name1: Seq<char>,
    limit1: u32,
    name2: Seq<char>,
    limit2: u32,
    kind: SlotKind,
    permit: u32,
)
    ensures
        gate_lock(name1, limit1) == gate_lock(name2, limit2) ==> name1 == name2 && limit1
            == limit2,
        gate_lock(name1, limit1) != slot_lock(kind, name2, limit2, permit),
{
    lemma_shape(name1, limit1, permit);
    lemma_shape(name2, limit2, permit);
    lemma_number_text(limit1 as nat, limit2 as nat);
    lemma_number_text(limit2 as nat, limit1 as nat);
    let d1 = decimal(limit1 as nat);
    let d2 = decimal(limit2 as nat);
    let h1 = hex_text(encode_utf8(name1));
    let h2 = hex_text(encode_utf8(name2));
    let g1 = "gate"@.push(':') + h1;
    if gate_lock(name1, limit1) == gate_lock(name2, limit2) {
        let g2 = "gate"@.push(':') + h2;
        lemma_cut("__lmx_rw_v1"@, d1.push(':') + g1, "__lmx_rw_v1"@, d2.push(':') + g2);
        lemma_cut(d1, g1, d2, g2);
        lemma_cut("gate"@, h1, "gate"@, h2);
        lemma_name_text(name1, name2);
    }
    if gate_lock(name1, limit1) == slot_lock(kind, name2, limit2, permit) {
        let t = tail(permit, name2);
        match kind {
            SlotKind::Permit => {
                lemma_cut("__lmx_rw_v1"@, d1.push(':') + g1, "__lmx_sem_v1"@, d2.push(':') + t);
            },
            SlotKind::Reader => {
                let s = "slot"@.push(':') + t;
                lemma_cut("__lmx_rw_v1"@, d1.push(':') + g1, "__lmx_rw_v1"@, d2.push(':') + s);
                lemma_cut(d1, g1, d2, s);
                lemma_cut("gate"@, h1, "slot"@, t);
            },
        }
    }
}

/// **Holder tokens do not collide**: those of locks differ from those of RW
/// locks, and two of RW locks differ if their numbers do.
pub proof fn law_rw_tokens_differ(a: nat, b: nat)
    requires
        a <= u64::MAX,
        b <= u64::MAX,
    ensures
        holder_token(a) != rw_token(b),
        rw_token(a) == rw_token(b) ==> a == b,
{
    reveal_strlit("h");
    reveal_strlit("rw");
    assert(holder_token(a)[0] == 'h');
    assert(rw_token(b)[0] == 'r');
    if rw_token(a) == rw_token(b) {
        assert(vstd::arithmetic::power::pow(16, 16) == 0x1_0000_0000_0000_0000) by {
            reveal_with_fuel(vstd::arithmetic::power::pow, 17);
        }
        assert(rw_token(a).skip(2) =~= hex_number(a, 16));
        assert(rw_token(b).skip(2) =~= hex_number(b, 16));
        lemma_hex_number_injective(a, b, 16);
    }
}

// ---- bounds ----------------------------------------------------------------------------------
/// Different numbers below a bound are no more than the bound.
proof fn lemma_pigeonhole(xs: Seq<int>, n: int)
    requires
        n >= 0,
        xs.no_duplicates(),
        forall|i: int| 0 <= i < xs.len() ==> 0 <= #[trigger] xs[i] < n,
    ensures
        xs.len() <= n,
{
    lemma_int_range(0, n);
    xs.unique_seq_to_set();
    assert forall|x: int| xs.to_set().contains(x) implies set_int_range(0, n).contains(x) by {
        let i = xs.index_of(x);
        assert(xs[i] == x);
    }
    lemma_len_subset(xs.to_set(), set_int_range(0, n));
}

/// `token` holds the slot `permit`.
pub open spec fn has_slot(
    c: CoordinatorView,
    kind: SlotKind,
    name: Seq<char>,
    limit: u32,
    token: Seq<char>,
    permit: u32,
) -> bool {
    permit < limit && c.held_lock(token) == Some(slot_lock(kind, name, limit, permit))
}

/// `token` holds some slot.
pub open spec fn has_some_slot(
    c: CoordinatorView,
    kind: SlotKind,
    name: Seq<char>,
    limit: u32,
    token: Seq<char>,
) -> bool {
    exists|p: u32| has_slot(c, kind, name, limit, token, p)
}

/// **No more holders than slots.** However many clients of a node there are, at
/// most `limit` of them hold a slot of a resource with that limit at one time.
pub proof fn law_holders_within_limit(
    c: CoordinatorView,
    kind: SlotKind,
    name: Seq<char>,
    limit: u32,
    tokens: Seq<Seq<char>>,
)
    requires
        tokens.no_duplicates(),
        forall|i: int|
            0 <= i < tokens.len() ==> has_some_slot(c, kind, name, limit, #[trigger] tokens[i]),
    ensures
        tokens.len() <= limit,
{
    let permits = Seq::new(
        tokens.len(),
        |i: int| (choose|p: u32| has_slot(c, kind, name, limit, tokens[i], p)) as int,
    );
    assert forall|i: int| 0 <= i < permits.len() implies 0 <= #[trigger] permits[i] < limit
        && has_slot(c, kind, name, limit, tokens[i], permits[i] as u32) by {
        assert(has_some_slot(c, kind, name, limit, tokens[i]));
    }
    assert forall|i: int, j: int|
        0 <= i < permits.len() && 0 <= j < permits.len() && i != j implies permits[i]
        != permits[j] by {
        if permits[i] == permits[j] {
            law_one_token_per_lock(c, tokens[i], tokens[j]);
        }
    }
    lemma_pigeonhole(permits, limit as int);
}

/// **No more holders than slots in the cluster.** At most `limit` slots of a
/// resource with that limit are held, over all `live` nodes together, those whose
/// leases do not lapse.
pub proof fn law_cluster_holders_within_limit(
    policy: QuorumPolicy,
    members: Seq<NodeId>,
    events: Seq<Event>,
    live: Set<NodeId>,
    kind: SlotKind,
    name: Seq<char>,
    limit: u32,
    held: Seq<(NodeId, u32)>,
)
    requires
        members.no_duplicates(),
        spares(policy, members, events, live),
        held.no_duplicates(),
        forall|i: int|
            0 <= i < held.len() ==> live.contains((#[trigger] held[i]).0) && held[i].1 < limit
                && after(
                policy,
                members,
                events,
            ).holds(held[i].0, slot_lock(kind, name, limit, held[i].1)),
    ensures
        held.len() <= limit,
{
    let permits = held.map_values(|h: (NodeId, u32)| h.1 as int);
    assert forall|i: int| 0 <= i < permits.len() implies 0 <= #[trigger] permits[i] < limit by {
        assert(held[i].1 < limit);
    }
    assert forall|i: int, j: int|
        0 <= i < permits.len() && 0 <= j < permits.len() && i != j implies permits[i]
        != permits[j] by {
        if permits[i] == permits[j] {
            assert(held[i].1 == held[j].1);
            law_survivors_exclude_each_other(
                policy,
                members,
                events,
                live,
                slot_lock(kind, name, limit, held[i].1),
                held[i].0,
                held[j].0,
            );
            assert(held[i] == held[j]);
        }
    }
    lemma_pigeonhole(permits, limit as int);
}

// ---- readers and writers -----------------------------------------------------------------------
/// Every lock of the bundle is held with the bundle's tokens.
pub open spec fn holds_all(c: CoordinatorView, b: BundleView) -> bool {
    forall|i: int|
        0 <= i < b.parts.len() ==> c.held_lock((#[trigger] b.parts[i]).holder) == Some(
            b.parts[i].lock,
        )
}

/// The bundles were made of different acquisitions.
pub open spec fn apart(a: BundleView, b: BundleView) -> bool {
    forall|i: int, j: int|
        0 <= i < a.parts.len() && 0 <= j < b.parts.len() ==> (#[trigger] a.parts[i]).holder != (
        #[trigger] b.parts[j]).holder
}

/// **Writers are exclusive.** While a writer holds an RW lock, neither a reader
/// nor another writer holds the lock of the same name and limit.
pub proof fn law_writer_is_exclusive(c: CoordinatorView, w: BundleView, b: BundleView)
    requires
        w.wf(),
        b.wf(),
        w.mode == RwMode::Write,
        w.name == b.name,
        w.limit == b.limit,
        apart(w, b),
        holds_all(c, w),
    ensures
        !holds_all(c, b),
{
    if holds_all(c, b) {
        let p: u32 = if b.mode is Read {
            b.permit->0
        } else {
            0
        };
        assert(b.parts[0].lock == slot_lock(SlotKind::Reader, b.name, b.limit, p));
        assert(w.parts[p as int].lock == slot_lock(SlotKind::Reader, w.name, w.limit, p as u32));
        law_one_token_per_lock(c, w.parts[p as int].holder, b.parts[0].holder);
    }
}

/// **Writers are exclusive in the cluster.** Of the `live` nodes, those whose leases
/// do not lapse, one that holds every reader slot of an RW lock is the only one that
/// holds any.
pub proof fn law_cluster_writer_is_exclusive(
    policy: QuorumPolicy,
    members: Seq<NodeId>,
    events: Seq<Event>,
    live: Set<NodeId>,
    name: Seq<char>,
    limit: u32,
    writer: NodeId,
    other: NodeId,
    permit: u32,
)
    requires
        members.no_duplicates(),
        spares(policy, members, events, live),
        live.contains(writer),
        live.contains(other),
        forall|p: u32|
            p < limit ==> after(policy, members, events).holds(
                writer,
                #[trigger] slot_lock(SlotKind::Reader, name, limit, p),
            ),
        permit < limit,
        other != writer,
    ensures
        !after(policy, members, events).holds(
            other,
            slot_lock(SlotKind::Reader, name, limit, permit),
        ),
{
    let lock = slot_lock(SlotKind::Reader, name, limit, permit);
    if after(policy, members, events).holds(other, lock) {
        law_survivors_exclude_each_other(policy, members, events, live, lock, writer, other);
    }
}

/// **Everybody is admitted first.** A reader and a writer ask for the lock of the
/// admission gate first, and for a slot only once they have it. So while a writer has
/// it, readers that come later wait.
pub proof fn law_everybody_is_admitted_first(
    c: LockClientView,
    name: Seq<char>,
    limit: u32,
    heard: HeardView,
)
    requires
        bounded_error(name, limit) is None,
    ensures
        c.acquire_read(name, limit).1.stage == (StageView::ReadGate { name, limit }),
        asks_for(c.acquire_read(name, limit).1, gate_lock(name, limit)),
        c.acquire_write(name, limit).1.stage == (StageView::WriteGate { name, limit }),
        asks_for(c.acquire_write(name, limit).1, gate_lock(name, limit)),
        c.hear(StageView::ReadGate { name, limit }, heard).1.asks.len() > 0 ==> has_lock(heard),
        c.hear(StageView::WriteGate { name, limit }, heard).1.asks.len() > 0 ==> has_lock(heard),
{
}

/// **A writer keeps the admission gate's lock** from the moment it has it until it has
/// every slot and holds the RW lock, or fails.
pub proof fn law_writer_stays_admitted(
    c: LockClientView,
    name: Seq<char>,
    limit: u32,
    gate: HeldView,
    fence: Fence,
    parts: Seq<HeldView>,
    heard: HeardView,
)
    requires
        parts.len() < limit,
    ensures
        ({
            let (d, call) = c.hear(StageView::WriteSlot { name, limit, gate, fence, parts }, heard);
            match call.stage {
                StageView::WriteSlot { gate: kept, parts: more, .. } => {
                    &&& kept == gate
                    &&& more == parts && call.asks.len() == 0 || more.drop_last() == parts
                        && asks_for(
                        call,
                        slot_lock(SlotKind::Reader, name, limit, more.len() as u32),
                    )
                },
                StageView::Done(Ok(AnswerView::Rw(a))) => {
                    &&& d.bundles.map.contains_key(a.holder)
                    &&& d.bundles.map[a.holder].parts.last() == gate
                    &&& call.asks.len() == 0
                },
                _ => !has_lock(heard),
            }
        }),
{
    if let Some(Ok(a)) = lock_reply(heard) {
        let more = parts.push(
            HeldView {
                lock: slot_lock(SlotKind::Reader, name, limit, parts.len() as u32),
                holder: a.holder,
            },
        );
        assert(more.drop_last() =~= parts);
        assert(more.push(gate).last() == gate);
    }
}

/// The call asks for `lock` and for nothing else.
pub open spec fn asks_for(call: CallView, lock: Seq<char>) -> bool {
    call.asks.len() == 1 && (call.asks[0] matches AskView::Acquire { lock: asked, .. } && asked
        == lock)
}

/// Word of an acquired lock.
pub open spec fn has_lock(heard: HeardView) -> bool {
    heard matches HeardView::Acquired(_, Ok(_))
}

// ---- what calls give back ------------------------------------------------------------------------
/// What a call asks in all, and what it waits for in the end, when it hears
/// `heard` one after the other.
pub open spec fn run(c: LockClientView, call: CallView, heard: Seq<HeardView>) -> (
    StageView,
    Seq<AskView>,
)
    decreases heard.len(),
{
    if heard.len() == 0 {
        (call.stage, call.asks)
    } else {
        let (d, next) = c.hear(call.stage, heard[0]);
        let (stage, asks) = run(d, next, heard.skip(1));
        (stage, call.asks + asks)
    }
}

/// Every entry answers a release.
pub open spec fn all_answer_releases(heard: Seq<HeardView>) -> bool {
    forall|i: int| 0 <= i < heard.len() ==> release_reply(#[trigger] heard[i]) is Some
}

/// The requests that give held locks back, in order.
pub open spec fn all_back(parts: Seq<HeldView>) -> Seq<AskView> {
    parts.map_values(|p: HeldView| give_back(p))
}

/// Giving locks back gives all of them back.
proof fn lemma_undo_run(
    c: LockClientView,
    error: ClientError,
    left: Seq<HeldView>,
    heard: Seq<HeardView>,
)
    requires
        heard.len() == left.len(),
        all_answer_releases(heard),
    ensures
        run(c, undo(error, left), heard) == (
            StageView::Done(Err::<AnswerView, ClientError>(error)),
            all_back(left),
        ),
    decreases left.len(),
{
    if left.len() == 0 {
        assert(all_back(left) =~= Seq::empty());
    } else {
        let rest = left.skip(1);
        assert(release_reply(heard[0]) is Some);
        assert forall|i: int| 0 <= i < heard.skip(1).len() implies release_reply(
            #[trigger] heard.skip(1)[i],
        ) is Some by {
            assert(heard.skip(1)[i] == heard[i + 1]);
        }
        lemma_undo_run(c, error, rest, heard.skip(1));
        assert(all_back(left) =~= seq![give_back(left[0])] + all_back(rest));
    }
}

/// **A writer that fails keeps nothing.** A writer that has the admission gate and some
/// slots and cannot get the next one gives back every slot it has, the last one
/// first, and then the admission gate, whatever the answers are, and fails with the error
/// it met.
pub proof fn law_failed_writer_keeps_nothing(
    c: LockClientView,
    name: Seq<char>,
    limit: u32,
    gate: HeldView,
    fence: Fence,
    parts: Seq<HeldView>,
    waiter: WaiterId,
    error: ClientError,
    heard: Seq<HeardView>,
)
    requires
        heard.len() == parts.len() + 1,
        all_answer_releases(heard),
    ensures
        ({
            let stage = StageView::WriteSlot { name, limit, gate, fence, parts };
            let failed = HeardView::Acquired(waiter, Err::<AcquireView, ClientError>(error));
            let (d, call) = c.hear(stage, failed);
            run(d, call, heard) == (
                StageView::Done(Err::<AnswerView, ClientError>(error)),
                all_back(parts.reverse().push(gate)),
            )
        }),
{
    lemma_undo_run(c, error, parts.reverse().push(gate), heard);
}

/// The first error among answers to releases.
pub open spec fn first_failure(heard: Seq<HeardView>) -> Option<ClientError>
    decreases heard.len(),
{
    if heard.len() == 0 {
        None
    } else {
        match release_reply(heard[0]) {
            Some(Err(e)) => Some(e),
            _ => first_failure(heard.skip(1)),
        }
    }
}

proof fn lemma_bundle_run(
    c: LockClientView,
    bundle: BundleView,
    next: nat,
    first_error: Option<ClientError>,
    heard: Seq<HeardView>,
)
    requires
        next < bundle.parts.len(),
        heard.len() == bundle.parts.len() - next,
        all_answer_releases(heard),
    ensures
        run(
            c,
            asking(
                StageView::ReleaseBundle { bundle, next, first_error },
                give_back(bundle.parts[next as int]),
            ),
            heard,
        ) == (
            StageView::Done(
                match (first_error, first_failure(heard)) {
                    (Some(e), _) => Err(e),
                    (None, Some(e)) => Err(e),
                    (None, None) => Ok(AnswerView::Release(bundle.release())),
                },
            ),
            all_back(bundle.parts.skip(next as int)),
        ),
    decreases heard.len(),
{
    reveal_with_fuel(run, 2);
    let parts = bundle.parts.skip(next as int);
    let rest = heard.skip(1);
    assert(release_reply(heard[0]) is Some);
    assert forall|i: int| 0 <= i < rest.len() implies release_reply(
        #[trigger] rest[i],
    ) is Some by {
        assert(rest[i] == heard[i + 1]);
    }
    let error = match (first_error, release_reply(heard[0])->0) {
        (None, Err(e)) => Some(e),
        _ => first_error,
    };
    if next + 1 < bundle.parts.len() {
        lemma_bundle_run(c, bundle, next + 1, error, rest);
        assert(all_back(parts) =~= seq![give_back(parts[0])] + all_back(
            bundle.parts.skip(next as int + 1),
        ));
    } else {
        assert(rest =~= Seq::empty());
        assert(first_failure(rest) is None);
        assert(all_back(parts) =~= seq![give_back(parts[0])]);
        assert(seq![give_back(parts[0])] + Seq::<AskView>::empty() =~= seq![give_back(parts[0])]);
    }
}

/// **A release gives everything back.** Whatever the answers are, releasing a
/// side of an RW lock gives back every one of its locks, in order; the call
/// fails with the first error, if there is one.
pub proof fn law_release_gives_everything_back(
    c: LockClientView,
    token: Seq<char>,
    heard: Seq<HeardView>,
)
    requires
        c.wf(),
        c.bundles.map.contains_key(token),
        heard.len() == c.bundles.map[token].parts.len(),
        all_answer_releases(heard),
    ensures
        ({
            let bundle = c.bundles.map[token];
            let (d, call) = c.release(token);
            &&& !d.bundles.map.contains_key(token)
            &&& run(d, call, heard) == (
                StageView::Done(
                    match first_failure(heard) {
                        Some(e) => Err(e),
                        None => Ok(AnswerView::Release(bundle.release())),
                    },
                ),
                all_back(bundle.parts),
            )
        }),
{
    let bundle = c.bundles.map[token];
    assert(bundle.wf());
    let (d, call) = c.release(token);
    lemma_bundle_run(d, bundle, 0, None, heard);
    assert(bundle.parts.skip(0) =~= bundle.parts);
}

} // verus!
