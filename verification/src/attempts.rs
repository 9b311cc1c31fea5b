//! How several keys are acquired together, and how the demo goes about it.
use vstd::prelude::*;

use vstd::utf8::*;

use crate::composite::{
    bytes_before, is_canonical, key_before, CompositeView, MAX_COMPOSITE_KEYS,
};
use crate::demo::{DemoActionView, DemoEventView, DemoNextView, DemoView, DEMO_ATTEMPT};
use crate::types::Fence;

verus! {

/// **Keys are ordered as bytes are**: what is a beginning of another comes first, and where
/// two differ the smaller byte comes first.
pub proof fn law_keys_are_ordered_as_bytes(
    front: Seq<u8>,
    x: u8,
    y: u8,
    a: Seq<u8>,
    b: Seq<u8>,
    k: Seq<char>,
    l: Seq<char>,
)
    ensures
        bytes_before(front, front + seq![x] + a),
        !bytes_before(front + seq![x] + a, front),
        x < y ==> bytes_before(front + seq![x] + a, front + seq![y] + b),
        x > y ==> !bytes_before(front + seq![x] + a, front + seq![y] + b),
        key_before(k, l) <==> bytes_before(encode_utf8(k), encode_utf8(l)),
    decreases front.len(),
{
    let s = front + seq![x] + a;
    let t = front + seq![y] + b;
    if front.len() > 0 {
        law_keys_are_ordered_as_bytes(front.skip(1), x, y, a, b, k, l);
        assert(s[0] == front[0] && t[0] == front[0]);
        assert(s.skip(1) =~= front.skip(1) + seq![x] + a);
        assert(t.skip(1) =~= front.skip(1) + seq![y] + b);
    } else {
        assert(s[0] == x && t[0] == y);
    }
}

/// **Canonical lists have every key once, in order**, and nothing else.
pub proof fn law_canonical_lists_have_every_key_once(
    out: Seq<Seq<char>>,
    keys: Seq<Seq<char>>,
    key: Seq<char>,
)
    requires
        is_canonical(out, keys),
    ensures
        out.contains(key) <==> keys.contains(key),
        forall|i: int, j: int|
            #![trigger out[i], out[j]]
            0 <= i < j < out.len() ==> key_before(out[i], out[j]),
        out.no_duplicates(),
{
    assert forall|i: int, j: int|
        0 <= i < out.len() && 0 <= j < out.len() && i != j implies out[i] != out[j] by {
        let k = encode_utf8(out[i]);
        crate::composite::lemma_bytes_total(k, k);
        if i < j {
            assert(key_before(out[i], out[j]));
        } else {
            assert(key_before(out[j], out[i]));
        }
    }
}

/// **Keys are acquired in order.** The key that a composite asks for is the first that it has
/// not acquired; with all of them it asks for none and is held.
pub proof fn law_keys_are_acquired_in_order(c: CompositeView)
    requires
        c.wf(),
    ensures
        MAX_COMPOSITE_KEYS == 3,
        c.fences.len() < c.keys.len() ==> c.pending() == Some(c.keys[c.fences.len() as int])
            && !c.is_held(),
        c.fences.len() == c.keys.len() ==> c.pending() is None && c.is_held(),
        forall|i: int, j: int|
            #![trigger c.keys[i], c.keys[j]]
            0 <= i < j < c.keys.len() ==> key_before(c.keys[i], c.keys[j]),
{
}

/// No key occurs twice.
proof fn lemma_keys_differ(c: CompositeView, i: int, j: int)
    requires
        c.wf(),
        0 <= i < c.keys.len(),
        0 <= j < c.keys.len(),
        c.keys[i] == c.keys[j],
    ensures
        i == j,
{
    let k = encode_utf8(c.keys[i]);
    crate::composite::lemma_bytes_total(k, k);
    if i < j {
        assert(key_before(c.keys[i], c.keys[j]));
    }
    if j < i {
        assert(key_before(c.keys[j], c.keys[i]));
    }
}

/// **Only the key that is asked for counts.** It is acquired from then on, with its token,
/// and the tokens of the others stay; any other key changes nothing.
pub proof fn law_only_the_pending_key_counts(c: CompositeView, key: Seq<char>, fence: Fence, i: int)
    requires
        c.wf(),
        0 <= i < c.keys.len(),
    ensures
        c.pending() != Some(key) ==> c.on_acquired(key, fence) == c,
        c.pending() == Some(key) ==> {
            let d = c.on_acquired(key, fence);
            &&& d.keys == c.keys
            &&& d.fence(key) == Some(fence)
            &&& i < c.fences.len() ==> d.fence(c.keys[i]) == Some(c.fences[i])
            &&& i > c.fences.len() ==> d.fence(c.keys[i]) is None
            &&& d.fences.len() == c.fences.len() + 1
        },
        i < c.fences.len() ==> c.fence(c.keys[i]) == Some(c.fences[i]),
        i >= c.fences.len() ==> c.fence(c.keys[i]) is None,
        !c.keys.contains(key) ==> c.fence(key) is None,
{
    lemma_fence_at(c, i);
    if c.pending() == Some(key) {
        let d = c.on_acquired(key, fence);
        lemma_fence_at(d, i);
        lemma_fence_at(d, c.fences.len() as int);
    }
    let part = c.keys.take(c.fences.len() as int);
    if part.contains(key) {
        let j = part.index_of(key);
        assert(c.keys[j] == key);
    }
}

/// The token of a key.
proof fn lemma_fence_at(c: CompositeView, i: int)
    requires
        c.wf(),
        0 <= i < c.keys.len(),
    ensures
        i < c.fences.len() ==> c.fence(c.keys[i]) == Some(c.fences[i]),
        i >= c.fences.len() ==> c.fence(c.keys[i]) is None,
{
    let part = c.keys.take(c.fences.len() as int);
    let k = c.keys[i];
    lemma_keys_differ(c, c.keys.index_of(k), i);
    if i < c.fences.len() {
        assert(part[i] == k);
    }
    if part.contains(k) {
        let j = part.index_of(k);
        assert(c.keys[j] == k);
        lemma_keys_differ(c, i, j);
    }
}

// ---- the demo -------------------------------------------------------------------------------------
/// **An attempt begins with the first key.** When the rest is over, everything that was
/// acquired is forgotten, the first key is asked for, and the attempt has eight seconds.
pub proof fn law_attempts_begin_with_the_first_key(d: DemoView)
    requires
        d.wf(),
        d.stage is Resting,
    ensures
        DEMO_ATTEMPT == 8_000_000_000,
        ({
            let (e, action) = d.step(DemoEventView::Woke);
            &&& e.stage is Waiting
            &&& e.composite.keys == d.composite.keys
            &&& e.composite.fences.len() == 0
            &&& action.ask == Some(d.composite.keys[0])
            &&& action.go_on == DemoNextView::Wait(8_000_000_000)
        }),
{
}

/// **Key after key is asked for.** When the key that was asked for is acquired in time, the
/// next one is asked for, and the wait is what is left of the attempt; with the last key all
/// are held. Another key is not what is waited for. An attempt that has taken too long is
/// given up.
pub proof fn law_key_after_key_is_asked_for(
    d: DemoView,
    lock: Seq<char>,
    fence: Fence,
    elapsed: u64,
)
    requires
        d.wf(),
        d.stage is Waiting,
    ensures
        ({
            let (e, action) = d.step(DemoEventView::Acquired(lock, fence, elapsed));
            let k = d.composite.fences.len() as int;
            let wanted = lock == d.composite.keys[k];
            let last = k + 1 == d.composite.keys.len();
            &&& wanted ==> e.composite.fences == d.composite.fences.push(fence)
            &&& !wanted ==> e.composite == d.composite && action.ask is None
            &&& wanted && last ==> e.stage is Holding && action.go_on is Hold && action.ask is None
            &&& wanted && !last ==> action.ask == Some(d.composite.keys[k + 1])
            &&& !(wanted && last) && elapsed < 8_000_000_000 ==> e.stage is Waiting
                && action.go_on == DemoNextView::Wait((8_000_000_000 - elapsed) as u64)
            &&& !(wanted && last) && elapsed >= 8_000_000_000 ==> e.stage is Resting
                && action.go_on == DemoNextView::GiveBack(d.composite.keys)
        }),
{
}

/// **Everything is given back** when the wait is over without all keys, and when they have
/// been held for a while; then the demo rests. What it does not wait for it passes over.
pub proof fn law_everything_is_given_back(d: DemoView, event: DemoEventView)
    requires
        d.wf(),
    ensures
        d.stage is Waiting ==> d.step(DemoEventView::TimedOut).0.stage is Resting && d.step(
            DemoEventView::TimedOut,
        ).1 == (DemoActionView { ask: None, go_on: DemoNextView::GiveBack(d.composite.keys) }),
        d.stage is Holding ==> d.step(DemoEventView::Woke).0.stage is Resting && d.step(
            DemoEventView::Woke,
        ).1 == (DemoActionView { ask: None, go_on: DemoNextView::GiveBack(d.composite.keys) }),
        (d.stage is Waiting && event is Woke) || (d.stage is Holding && !(event is Woke)) || (
        d.stage is Resting && !(event is Woke)) ==> d.step(event) == (
            d,
            DemoActionView { ask: None, go_on: DemoNextView::Nothing },
        ),
{
}

} // verus!
