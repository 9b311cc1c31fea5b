//! Multi-key (composite) locking: acquire up to [`MAX_COMPOSITE_KEYS`] keys as
//! one all-or-nothing unit.
//!
//! Two rules give the semantics:
//!
//! - **Conflict on overlap**: a composite holds every one of its component
//!   single-key locks, so two composites that share any key are mutually
//!   exclusive (one holder per key).
//! - **Deadlock-free**: components are acquired in a canonical (sorted) order,
//!   so who waits for whom only points from smaller keys to larger ones and can
//!   never form a cycle.
//!
//! [`Composite`] is a small state machine: ask it which key to request next
//! ([`Composite::pending`]), feed each single-key acquisition into
//! [`Composite::on_acquired`], and it tells you when the whole composite is
//! held ([`Composite::is_held`]).
use vstd::prelude::*;
use vstd::utf8::*;

use crate::text::{
    chars_of, decimal, decimal_chars, lemma_bytes_determine_chars, push_chars, str_eq, string_of,
};
use crate::types::{Fence, LockId};

verus! {

/// Maximum number of distinct keys in one composite lock.
pub const MAX_COMPOSITE_KEYS: usize = 3;

/// Why a composite key set was rejected.
#[derive(Debug, Clone, PartialEq, Eq)]
pub enum CompositeError {
    /// No keys supplied.
    Empty,
    /// More than [`MAX_COMPOSITE_KEYS`] distinct keys.
    TooMany(usize),
    /// A key was the empty string.
    EmptyKey,
}

impl CompositeError {
    /// The message for people.
    pub fn to_string(&self) -> (s: String)
        ensures
            s@ == match *self {
                CompositeError::Empty => "composite needs at least one key"@,
                CompositeError::TooMany(n) => "composite allows at most 3 keys, got "@ + decimal(
                    n as nat,
                ),
                CompositeError::EmptyKey => "composite keys must be non-empty"@,
            },
    {
        match self {
            CompositeError::Empty => "composite needs at least one key".to_owned(),
            CompositeError::TooMany(n) => {
                let mut v = chars_of("composite allows at most 3 keys, got ");
                push_chars(&mut v, &decimal_chars(*n as u64));
                string_of(&v)
            },
            CompositeError::EmptyKey => "composite keys must be non-empty".to_owned(),
        }
    }
}

/// The order of byte strings: by the first byte that differs, a prefix first.
pub open spec fn bytes_before(a: Seq<u8>, b: Seq<u8>) -> bool
    decreases a.len(),
{
    if b.len() == 0 {
        false
    } else if a.len() == 0 {
        true
    } else if a[0] != b[0] {
        a[0] < b[0]
    } else {
        bytes_before(a.skip(1), b.skip(1))
    }
}

/// The order of keys: that of their UTF-8 bytes.
pub open spec fn key_before(a: Seq<char>, b: Seq<char>) -> bool {
    bytes_before(encode_utf8(a), encode_utf8(b))
}

/// No byte string comes before itself, and of two different ones, one comes
/// before the other.
pub proof fn lemma_bytes_total(a: Seq<u8>, b: Seq<u8>)
    ensures
        !bytes_before(a, a),
        a != b ==> bytes_before(a, b) != bytes_before(b, a),
        a == b ==> !bytes_before(a, b),
    decreases a.len(),
{
    if a.len() > 0 && b.len() > 0 && a[0] == b[0] {
        lemma_bytes_total(a.skip(1), b.skip(1));
        if a.skip(1) == b.skip(1) {
            assert(a =~= seq![a[0]] + a.skip(1));
            assert(b =~= seq![b[0]] + b.skip(1));
        }
    }
    if a.len() > 0 {
        lemma_bytes_total(a.skip(1), a.skip(1));
    }
    if a.len() == 0 && b.len() == 0 {
        assert(a =~= b);
    }
}

/// The order is transitive.
pub proof fn lemma_bytes_transitive(a: Seq<u8>, b: Seq<u8>, c: Seq<u8>)
    requires
        bytes_before(a, b),
        bytes_before(b, c),
    ensures
        bytes_before(a, c),
    decreases a.len(),
{
    if a.len() > 0 && a[0] == b[0] && b[0] == c[0] {
        lemma_bytes_transitive(a.skip(1), b.skip(1), c.skip(1));
    }
}

/// Of two different keys, one comes before the other.
pub proof fn lemma_keys_total(a: Seq<char>, b: Seq<char>)
    ensures
        a != b ==> key_before(a, b) != key_before(b, a),
        a == b ==> !key_before(a, b),
{
    lemma_bytes_total(encode_utf8(a), encode_utf8(b));
    if encode_utf8(a) == encode_utf8(b) {
        lemma_bytes_determine_chars(a, b);
    }
}

/// Every key comes before all that follow it.
pub open spec fn sorted(keys: Seq<Seq<char>>) -> bool {
    forall|i: int, j: int|
        0 <= i < j < keys.len() ==> key_before(#[trigger] keys[i], #[trigger] keys[j])
}

/// The keys of a list of strings.
pub open spec fn key_views(keys: Seq<String>) -> Seq<Seq<char>> {
    keys.map_values(|k: String| k@)
}

/// `out` lists the keys of `keys`, each once, in order.
pub open spec fn is_canonical(out: Seq<Seq<char>>, keys: Seq<Seq<char>>) -> bool {
    &&& sorted(out)
    &&& forall|k: Seq<char>| #[trigger] out.contains(k) <==> keys.contains(k)
}

/// A sorted list of the same keys is as long as there are different keys.
proof fn lemma_canonical_len(out: Seq<Seq<char>>, keys: Seq<Seq<char>>)
    requires
        is_canonical(out, keys),
    ensures
        out.len() == keys.to_set().len(),
{
    assert(out.no_duplicates()) by {
        assert forall|i: int, j: int|
            0 <= i < out.len() && 0 <= j < out.len() && i != j implies out[i] != out[j] by {
            lemma_keys_total(out[i], out[j]);
            lemma_keys_total(out[j], out[i]);
            if i < j {
                assert(key_before(out[i], out[j]));
            } else {
                assert(key_before(out[j], out[i]));
            }
        }
    }
    out.unique_seq_to_set();
    assert(out.to_set() =~= keys.to_set());
}

/// Whether key `a` comes before key `b`.
fn before(a: &str, b: &str) -> (r: bool)
    ensures
        r == key_before(a@, b@),
{
    let x = a.as_bytes();
    let y = b.as_bytes();
    let mut i: usize = 0;
    assert(x@.skip(0) =~= x@);
    assert(y@.skip(0) =~= y@);
    while i < x.len() && i < y.len() && x[i] == y[i]
        invariant
            i <= x@.len(),
            i <= y@.len(),
            bytes_before(x@.skip(i as int), y@.skip(i as int)) == bytes_before(x@, y@),
        decreases x@.len() - i,
    {
        proof {
            assert(x@.skip(i as int).skip(1) =~= x@.skip(i + 1));
            assert(y@.skip(i as int).skip(1) =~= y@.skip(i + 1));
        }
        i += 1;
    }
    if i == y.len() {
        false
    } else if i == x.len() {
        true
    } else {
        x[i] < y[i]
    }
}

/// Add a key to a sorted list, unless it is there.
fn insert_key(out: &mut Vec<LockId>, key: &String)
    requires
        sorted(key_views(old(out)@)),
    ensures
        sorted(key_views(final(out)@)),
        forall|k: Seq<char>| #[trigger]
            key_views(final(out)@).contains(k) <==> key_views(old(out)@).contains(k) || k == key@,
        final(out)@.len() >= old(out)@.len(),
{
    let ghost keys = key_views(out@);
    let mut i: usize = 0;
    while i < out.len() && before(out[i].as_str(), key.as_str())
        invariant
            out@ == old(out)@,
            keys == key_views(out@),
            sorted(keys),
            i <= out@.len(),
            forall|j: int| 0 <= j < i ==> key_before(#[trigger] keys[j], key@),
        decreases out@.len() - i,
    {
        assert(keys[i as int] == out@[i as int]@);
        i += 1;
    }
    if i < out.len() && str_eq(out[i].as_str(), key.as_str()) {
        assert(keys[i as int] == key@);
        return ;
    }
    out.insert(i, key.clone());
    proof {
        let now = key_views(out@);
        assert(now =~= keys.insert(i as int, key@));
        if i < keys.len() {
            lemma_keys_total(keys[i as int], key@);
            lemma_keys_total(key@, keys[i as int]);
        }
        assert forall|a: int, b: int| 0 <= a < b < now.len() implies key_before(
            #[trigger] now[a],
            #[trigger] now[b],
        ) by {
            if b == i {
                assert(now[a] == keys[a]);
            } else if a == i {
                assert(now[b] == keys[b - 1]);
                if b - 1 > i {
                    assert(key_before(keys[i as int], keys[b - 1]));
                    lemma_bytes_transitive(
                        encode_utf8(key@),
                        encode_utf8(keys[i as int]),
                        encode_utf8(keys[b - 1]),
                    );
                }
            } else {
                let a2 = if a < i {
                    a
                } else {
                    a - 1
                };
                let b2 = if b < i {
                    b
                } else {
                    b - 1
                };
                assert(now[a] == keys[a2] && now[b] == keys[b2]);
            }
        }
        assert forall|k: Seq<char>| #[trigger] now.contains(k) <==> keys.contains(k) || k == key@ by {
            assert(now[i as int] == key@);
            if keys.contains(k) {
                let j = keys.index_of(k);
                if j < i {
                    assert(now[j] == k);
                } else {
                    assert(now[j + 1] == k);
                }
            }
            if now.contains(k) && k != key@ {
                let j = now.index_of(k);
                if j < i {
                    assert(keys[j] == k);
                } else {
                    assert(keys[j - 1] == k);
                }
            }
        }
    }
}

/// Some key is the empty string.
pub open spec fn has_empty_key(keys: Seq<Seq<char>>) -> bool {
    exists|i: int| 0 <= i < keys.len() && (#[trigger] keys[i]).len() == 0
}

/// Canonicalize a composite key set: reject empty keys, de-duplicate, sort, and
/// enforce the bound of [`MAX_COMPOSITE_KEYS`] on the count.
pub fn canonical_keys(keys: &[String]) -> (r: Result<Vec<LockId>, CompositeError>)
    ensures
        match r {
            Err(CompositeError::EmptyKey) => has_empty_key(key_views(keys@)),
            Err(CompositeError::Empty) => keys@.len() == 0,
            Err(CompositeError::TooMany(n)) => {
                &&& !has_empty_key(key_views(keys@))
                &&& n == key_views(keys@).to_set().len()
                &&& n > MAX_COMPOSITE_KEYS
            },
            Ok(out) => {
                &&& keys@.len() > 0
                &&& !has_empty_key(key_views(keys@))
                &&& is_canonical(key_views(out@), key_views(keys@))
                &&& key_views(keys@).to_set().len() <= MAX_COMPOSITE_KEYS
                &&& out@.len() == key_views(keys@).to_set().len()
            },
        },
{
    let ghost views = key_views(keys@);
    let mut i: usize = 0;
    while i < keys.len()
        invariant
            views == key_views(keys@),
            i <= keys@.len(),
            forall|j: int| 0 <= j < i ==> (#[trigger] views[j]).len() > 0,
        decreases keys@.len() - i,
    {
        assert(views[i as int] == keys@[i as int]@);
        if keys[i].as_str().is_empty() {
            return Err(CompositeError::EmptyKey);
        }
        i += 1;
    }
    let mut out: Vec<LockId> = Vec::new();
    let mut i: usize = 0;
    assert(views.take(0) =~= Seq::empty());
    assert(key_views(out@) =~= Seq::empty());
    while i < keys.len()
        invariant
            views == key_views(keys@),
            i <= keys@.len(),
            sorted(key_views(out@)),
            forall|k: Seq<char>| #[trigger]
                key_views(out@).contains(k) <==> views.take(i as int).contains(k),
        decreases keys@.len() - i,
    {
        let ghost was = key_views(out@);
        insert_key(&mut out, &keys[i]);
        proof {
            let t = views.take(i + 1);
            assert(t =~= views.take(i as int).push(views[i as int]));
            assert forall|k: Seq<char>| #[trigger] key_views(out@).contains(k) <==> t.contains(k) by {
                assert(t[i as int] == keys@[i as int]@);
                if views.take(i as int).contains(k) {
                    assert(t[views.take(i as int).index_of(k)] == k);
                }
                if t.contains(k) && k != keys@[i as int]@ {
                    assert(views.take(i as int)[t.index_of(k)] == k);
                }
                assert(was.contains(k) <==> views.take(i as int).contains(k));
            }
        }
        i += 1;
    }
    proof {
        assert(views.take(i as int) =~= views);
        lemma_canonical_len(key_views(out@), views);
    }
    if out.len() == 0 {
        proof {
            if keys@.len() > 0 {
                assert(views.contains(views[0]));
                assert(key_views(out@).contains(views[0]));
            }
        }
        return Err(CompositeError::Empty);
    }
    proof {
        assert(key_views(out@).contains(key_views(out@)[0]));
    }
    if out.len() > MAX_COMPOSITE_KEYS {
        return Err(CompositeError::TooMany(out.len()));
    }
    Ok(out)
}

/// What feeding an acquisition into a [`Composite`] did.
#[derive(Debug, Clone, PartialEq, Eq)]
pub enum Progress {
    /// Not the key we were waiting on; nothing changed.
    Ignored,
    /// Component acquired; now request this next key.
    Next(LockId),
    /// Every component is held: the composite is acquired.
    Held,
}

/// The content of a [`Composite`]: its keys, and the fence tokens of those it
/// has acquired, which are the first ones.
#[verifier::ext_equal]
pub struct CompositeView {
    pub keys: Seq<Seq<char>>,
    pub fences: Seq<Fence>,
}

impl CompositeView {
    /// One to [`MAX_COMPOSITE_KEYS`] keys in order, none empty; no more tokens
    /// than keys.
    pub open spec fn wf(self) -> bool {
        &&& sorted(self.keys)
        &&& 0 < self.keys.len() <= MAX_COMPOSITE_KEYS
        &&& !has_empty_key(self.keys)
        &&& self.fences.len() <= self.keys.len()
    }

    /// Whether all components are held.
    pub open spec fn is_held(self) -> bool {
        self.fences.len() == self.keys.len()
    }

    /// The key to request right now.
    pub open spec fn pending(self) -> Option<Seq<char>> {
        if self.is_held() {
            None
        } else {
            Some(self.keys[self.fences.len() as int])
        }
    }

    /// Whether `key` is a component that has been acquired.
    pub open spec fn has(self, key: Seq<char>) -> bool {
        self.keys.take(self.fences.len() as int).contains(key)
    }

    /// The token of an acquired component.
    pub open spec fn fence(self, key: Seq<char>) -> Option<Fence> {
        if self.has(key) {
            Some(self.fences[self.keys.index_of(key)])
        } else {
            None
        }
    }

    /// The composite after `key` has been acquired: the pending key counts,
    /// anything else does not.
    pub open spec fn on_acquired(self, key: Seq<char>, fence: Fence) -> CompositeView {
        if self.pending() == Some(key) {
            CompositeView { fences: self.fences.push(fence), ..self }
        } else {
            self
        }
    }
}

/// An ordered, all-or-nothing acquire of up to [`MAX_COMPOSITE_KEYS`] keys.
#[derive(Debug, Clone)]
pub struct Composite {
    keys: Vec<LockId>,
    fences: Vec<Fence>,
}

impl View for Composite {
    type V = CompositeView;

    closed spec fn view(&self) -> CompositeView {
        CompositeView { keys: key_views(self.keys@), fences: self.fences@ }
    }
}

impl Composite {
    /// Build from an arbitrary key list (canonicalized). The first key to
    /// request is [`Composite::pending`].
    pub fn new(keys: &[String]) -> (r: Result<Composite, CompositeError>)
        ensures
            match r {
                Err(CompositeError::EmptyKey) => has_empty_key(key_views(keys@)),
                Err(CompositeError::Empty) => keys@.len() == 0,
                Err(CompositeError::TooMany(n)) => {
                    &&& !has_empty_key(key_views(keys@))
                    &&& n == key_views(keys@).to_set().len()
                    &&& n > MAX_COMPOSITE_KEYS
                },
                Ok(c) => {
                    &&& c@.wf()
                    &&& keys@.len() > 0
                    &&& !has_empty_key(key_views(keys@))
                    &&& key_views(keys@).to_set().len() <= MAX_COMPOSITE_KEYS
                    &&& is_canonical(c@.keys, key_views(keys@))
                    &&& c@.fences.len() == 0
                },
            },
    {
        match canonical_keys(keys) {
            Ok(canonical) => {
                let c = Composite { keys: canonical, fences: Vec::new() };
                proof {
                    let views = key_views(keys@);
                    assert(views.contains(views[0]));
                    assert(c@.keys.contains(views[0]));
                    assert forall|i: int| 0 <= i < c@.keys.len() implies (
                    #[trigger] c@.keys[i]).len() > 0 by {
                        assert(c@.keys.contains(c@.keys[i]));
                        let j = views.index_of(c@.keys[i]);
                        assert(views[j] == c@.keys[i]);
                    }
                }
                Ok(c)
            },
            Err(e) => Err(e),
        }
    }

    /// The canonical (sorted, de-duped) component keys.
    pub fn keys(&self) -> (k: &[LockId])
        ensures
            key_views(k@) == self@.keys,
    {
        self.keys.as_slice()
    }

    /// The key to request right now: the next un-acquired component, or `None`
    /// once the composite is fully held.
    pub fn pending(&self) -> (r: Option<&LockId>)
        requires
            self@.wf(),
        ensures
            match r {
                Some(k) => self@.pending() == Some(k@),
                None => self@.pending() is None,
            },
    {
        let next = self.fences.len();
        if next < self.keys.len() {
            assert(self@.keys[next as int] == self.keys@[next as int]@);
            Some(&self.keys[next])
        } else {
            None
        }
    }

    /// Whether all components are held.
    pub fn is_held(&self) -> (b: bool)
        ensures
            b == self@.is_held(),
    {
        self.fences.len() == self.keys.len()
    }

    /// The fence token obtained for `key`, if it has been acquired.
    pub fn fence(&self, key: &str) -> (r: Option<Fence>)
        requires
            self@.wf(),
        ensures
            r == self@.fence(key@),
    {
        let ghost keys = self@.keys;
        let mut i: usize = 0;
        while i < self.fences.len()
            invariant
                self@.wf(),
                keys == self@.keys,
                i <= self.fences@.len(),
                forall|j: int| 0 <= j < i ==> #[trigger] keys[j] != key@,
            decreases self.fences@.len() - i,
        {
            assert(keys[i as int] == self.keys@[i as int]@);
            if str_eq(self.keys[i].as_str(), key) {
                proof {
                    let t = keys.take(self.fences@.len() as int);
                    assert(t[i as int] == key@);
                    let j = keys.index_of(key@);
                    if j != i {
                        lemma_keys_total(keys[i as int], keys[j]);
                        if i < j {
                            assert(key_before(keys[i as int], keys[j]));
                        } else {
                            assert(key_before(keys[j], keys[i as int]));
                        }
                    }
                }
                return Some(self.fences[i]);
            }
            i += 1;
        }
        proof {
            let t = keys.take(self.fences@.len() as int);
            if t.contains(key@) {
                assert(keys[t.index_of(key@)] == key@);
            }
        }
        None
    }

    /// Begin again: nothing is acquired.
    pub(crate) fn restart(&mut self)
        requires
            old(self)@.wf(),
        ensures
            final(self)@.wf(),
            final(self)@ == (CompositeView { fences: Seq::empty(), ..old(self)@ }),
    {
        self.fences.clear();
    }

    /// Feed a single-key acquisition. Advances only if it is the component we
    /// are currently waiting on (so stray or duplicate acquisitions are
    /// ignored).
    pub fn on_acquired(&mut self, key: &str, fence: Fence) -> (p: Progress)
        requires
            old(self)@.wf(),
        ensures
            final(self)@.wf(),
            final(self)@ == old(self)@.on_acquired(key@, fence),
            match p {
                Progress::Ignored => old(self)@.pending() != Some(key@),
                Progress::Next(k) => old(self)@.pending() == Some(key@) && final(self)@.pending()
                    == Some(k@),
                Progress::Held => old(self)@.pending() == Some(key@) && final(self)@.is_held(),
            },
    {
        let next = self.fences.len();
        if next >= self.keys.len() {
            return Progress::Ignored;
        }
        assert(self@.keys[next as int] == self.keys@[next as int]@);
        if !str_eq(self.keys[next].as_str(), key) {
            return Progress::Ignored;
        }
        self.fences.push(fence);
        if next + 1 < self.keys.len() {
            assert(self@.keys[next + 1] == self.keys@[next + 1]@);
            Progress::Next(self.keys[next + 1].clone())
        } else {
            Progress::Held
        }
    }
}

/// **All or nothing.** A composite is held exactly when every one of its keys
/// has a fence token.
pub proof fn law_held_has_every_key(c: CompositeView)
    requires
        c.wf(),
    ensures
        c.is_held() <==> forall|k: Seq<char>| #[trigger] c.keys.contains(k) ==> c.fence(k) is Some,
{
    let t = c.keys.take(c.fences.len() as int);
    if c.is_held() {
        assert(t =~= c.keys);
    } else {
        let k = c.keys[c.fences.len() as int];
        assert(c.keys.contains(k));
        if t.contains(k) {
            let i = t.index_of(k);
            assert(key_before(c.keys[i], c.keys[c.fences.len() as int]));
            lemma_keys_total(k, k);
        }
    }
}

/// **Waiting points to larger keys.** The key that a composite waits for comes
/// after every key it has.
pub proof fn law_waits_for_larger_keys(c: CompositeView, has: Seq<char>)
    requires
        c.wf(),
        c.pending() is Some,
        c.has(has),
    ensures
        key_before(has, c.pending()->0),
{
    let t = c.keys.take(c.fences.len() as int);
    let i = t.index_of(has);
    assert(c.keys[i] == has);
}

/// Each composite waits for a key that the next one has, and the last one for
/// a key that the first one has.
pub open spec fn wait_in_circle(cs: Seq<CompositeView>) -> bool {
    &&& cs.len() > 0
    &&& forall|i: int| 0 <= i < cs.len() ==> (#[trigger] cs[i]).wf() && cs[i].pending() is Some
    &&& forall|i: int|
        0 <= i < cs.len() - 1 ==> cs[i + 1].has((#[trigger] cs[i]).pending()->0)
    &&& cs[0].has(cs.last().pending()->0)
}

/// **Composites do not deadlock**: no circle of composites waits for each
/// other's keys.
pub proof fn law_composites_never_wait_in_circle(cs: Seq<CompositeView>)
    ensures
        !wait_in_circle(cs),
{
    if wait_in_circle(cs) {
        let last = cs.len() - 1;
        lemma_chain_increases(cs, last);
        let first_key = cs[0].pending()->0;
        let last_key = cs[last].pending()->0;
        law_waits_for_larger_keys(cs[0], last_key);
        if last == 0 {
            lemma_keys_total(first_key, first_key);
        } else {
            lemma_bytes_transitive(
                encode_utf8(last_key),
                encode_utf8(first_key),
                encode_utf8(last_key),
            );
            lemma_keys_total(last_key, last_key);
        }
    }
}

/// Along a chain of waiting composites, keys increase.
proof fn lemma_chain_increases(cs: Seq<CompositeView>, i: int)
    requires
        wait_in_circle(cs),
        0 <= i < cs.len(),
    ensures
        i > 0 ==> key_before(cs[0].pending()->0, cs[i].pending()->0),
    decreases i,
{
    if i > 0 {
        lemma_chain_increases(cs, i - 1);
        assert(cs[i - 1 + 1].has(cs[i - 1].pending()->0));
        law_waits_for_larger_keys(cs[i], cs[i - 1].pending()->0);
        if i > 1 {
            lemma_bytes_transitive(
                encode_utf8(cs[0].pending()->0),
                encode_utf8(cs[i - 1].pending()->0),
                encode_utf8(cs[i].pending()->0),
            );
        }
    }
}

} // verus!
