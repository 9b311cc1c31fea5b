//! What clients of a node ask for and get.
//!
//! Clients in any language talk to a node over HTTP with JSON or over a
//! line-oriented protocol; both feed the same [`crate::coordinator`], so
//! clients of one node queue up and each holder gets a fence token of its own.
//! [`LockClient`] turns what a client asks for into requests to the
//! coordinator: a semaphore is a set of exclusive permit locks, and an RW lock
//! is a gate and a set of reader slots.
use vstd::prelude::*;

use vstd::utf8::*;

use crate::lock_map::{lemma_table_del_wf, lemma_table_put_wf, LockMap, Table};
use crate::text::{
    chars_of, decimal, decimal_chars, hex_encode, hex_number, hex_number_chars, hex_text,
    push_chars, push_str, str_eq, string_of,
};
use crate::types::{Fence, LockId};

verus! {

/// The smallest number of permits of a semaphore and of reader slots of an RW
/// lock.
pub const MIN_SEMAPHORE_LIMIT: u32 = 2;

/// The greatest number of permits of a semaphore and of reader slots of an RW
/// lock.
pub const MAX_SEMAPHORE_LIMIT: u32 = 100;

/// Names one request to the coordinator.
pub type WaiterId = u64;

/// The characters of a text that may be missing.
pub open spec fn opt_view(s: Option<String>) -> Option<Seq<char>> {
    match s {
        Some(s) => Some(s@),
        None => None,
    }
}

// ---- what clients get -------------------------------------------------------------------
/// A successful lock acquisition.
#[derive(Clone, Debug, PartialEq, Eq)]
pub struct ClientAcquire {
    pub lock: LockId,
    pub fence: Fence,
    pub holder: String,
}

/// The content of a [`ClientAcquire`].
#[verifier::ext_equal]
pub struct AcquireView {
    pub lock: Seq<char>,
    pub fence: Fence,
    pub holder: Seq<char>,
}

impl View for ClientAcquire {
    type V = AcquireView;

    open spec fn view(&self) -> AcquireView {
        AcquireView { lock: self.lock@, fence: self.fence, holder: self.holder@ }
    }
}

/// A successful acquisition of a semaphore permit.
#[derive(Clone, Debug, PartialEq, Eq)]
pub struct ClientSemaphoreAcquire {
    pub semaphore: String,
    pub limit: u32,
    pub permit: u32,
    pub fence: Fence,
    pub holder: String,
}

/// The content of a [`ClientSemaphoreAcquire`].
#[verifier::ext_equal]
pub struct SemaphoreAcquireView {
    pub semaphore: Seq<char>,
    pub limit: u32,
    pub permit: u32,
    pub fence: Fence,
    pub holder: Seq<char>,
}

impl View for ClientSemaphoreAcquire {
    type V = SemaphoreAcquireView;

    open spec fn view(&self) -> SemaphoreAcquireView {
        SemaphoreAcquireView {
            semaphore: self.semaphore@,
            limit: self.limit,
            permit: self.permit,
            fence: self.fence,
            holder: self.holder@,
        }
    }
}

/// Which side of an RW lock was acquired.
#[derive(Clone, Copy, Debug, PartialEq, Eq, Structural)]
pub enum RwMode {
    Read,
    Write,
}

impl RwMode {
    /// The name of the side.
    pub open spec fn name(self) -> Seq<char> {
        match self {
            RwMode::Read => "read"@,
            RwMode::Write => "write"@,
        }
    }

    /// The name of the side.
    pub fn as_str(self) -> (s: &'static str)
        ensures
            s@ == self.name(),
    {
        match self {
            RwMode::Read => "read",
            RwMode::Write => "write",
        }
    }
}

/// A successful RW lock acquisition; a reader has a permit, a writer has them
/// all.
#[derive(Clone, Debug, PartialEq, Eq)]
pub struct ClientRwAcquire {
    pub rwlock: String,
    pub mode: RwMode,
    pub limit: u32,
    pub permit: Option<u32>,
    pub fence: Fence,
    pub holder: String,
}

/// The content of a [`ClientRwAcquire`].
#[verifier::ext_equal]
pub struct RwAcquireView {
    pub rwlock: Seq<char>,
    pub mode: RwMode,
    pub limit: u32,
    pub permit: Option<u32>,
    pub fence: Fence,
    pub holder: Seq<char>,
}

impl View for ClientRwAcquire {
    type V = RwAcquireView;

    open spec fn view(&self) -> RwAcquireView {
        RwAcquireView {
            rwlock: self.rwlock@,
            mode: self.mode,
            limit: self.limit,
            permit: self.permit,
            fence: self.fence,
            holder: self.holder@,
        }
    }
}

/// A successful release.
#[derive(Clone, Debug, PartialEq, Eq)]
pub struct ClientRelease {
    pub lock: LockId,
    pub semaphore: Option<String>,
    pub limit: Option<u32>,
    pub permit: Option<u32>,
    pub rwlock: Option<String>,
    pub mode: Option<RwMode>,
}

/// The content of a [`ClientRelease`].
#[verifier::ext_equal]
pub struct ReleaseView {
    pub lock: Seq<char>,
    pub semaphore: Option<Seq<char>>,
    pub limit: Option<u32>,
    pub permit: Option<u32>,
    pub rwlock: Option<Seq<char>>,
    pub mode: Option<RwMode>,
}

impl View for ClientRelease {
    type V = ReleaseView;

    open spec fn view(&self) -> ReleaseView {
        ReleaseView {
            lock: self.lock@,
            semaphore: opt_view(self.semaphore),
            limit: self.limit,
            permit: self.permit,
            rwlock: opt_view(self.rwlock),
            mode: self.mode,
        }
    }
}

/// Why a request of a client fails.
#[derive(Clone, Copy, Debug, PartialEq, Eq, Structural)]
pub enum ClientError {
    Stopped,
    EmptyLock,
    BadLimit,
    NotHeld,
    HolderMismatch,
}

impl ClientError {
    /// The HTTP status for the error.
    pub open spec fn http_status(self) -> u16 {
        match self {
            ClientError::Stopped => 503,
            ClientError::EmptyLock => 400,
            ClientError::BadLimit => 400,
            ClientError::NotHeld => 404,
            ClientError::HolderMismatch => 409,
        }
    }

    /// The short name of the error.
    pub open spec fn name(self) -> Seq<char> {
        match self {
            ClientError::Stopped => "stopped"@,
            ClientError::EmptyLock => "empty_lock"@,
            ClientError::BadLimit => "bad_limit"@,
            ClientError::NotHeld => "not_held"@,
            ClientError::HolderMismatch => "holder_mismatch"@,
        }
    }

    /// The message for people.
    pub open spec fn message(self) -> Seq<char> {
        match self {
            ClientError::Stopped => "node stopped"@,
            ClientError::EmptyLock => "lock must not be empty"@,
            ClientError::BadLimit => "limit must be between 2 and 100"@,
            ClientError::NotHeld => "holder token does not refer to a held lock"@,
            ClientError::HolderMismatch => "holder token does not own that lock"@,
        }
    }

    /// The HTTP status for the error.
    pub fn status(&self) -> (s: u16)
        ensures
            s == self.http_status(),
    {
        match self {
            ClientError::Stopped => 503,
            ClientError::EmptyLock => 400,
            ClientError::BadLimit => 400,
            ClientError::NotHeld => 404,
            ClientError::HolderMismatch => 409,
        }
    }

    /// The short name of the error.
    pub fn code(&self) -> (s: &'static str)
        ensures
            s@ == self.name(),
    {
        match self {
            ClientError::Stopped => "stopped",
            ClientError::EmptyLock => "empty_lock",
            ClientError::BadLimit => "bad_limit",
            ClientError::NotHeld => "not_held",
            ClientError::HolderMismatch => "holder_mismatch",
        }
    }

    /// The message for people.
    pub fn to_string(&self) -> (s: String)
        ensures
            s@ == self.message(),
    {
        match self {
            ClientError::Stopped => "node stopped".to_owned(),
            ClientError::EmptyLock => "lock must not be empty".to_owned(),
            ClientError::BadLimit => "limit must be between 2 and 100".to_owned(),
            ClientError::NotHeld => "holder token does not refer to a held lock".to_owned(),
            ClientError::HolderMismatch => "holder token does not own that lock".to_owned(),
        }
    }
}

/// What a waiter of the coordinator stands for.
#[derive(Clone, Debug, PartialEq, Eq)]
pub enum ClientResource {
    /// The lock itself.
    Lock { lock: LockId },
    /// A permit of a semaphore.
    Semaphore { name: String, limit: u32, permit: u32 },
}

/// The content of a [`ClientResource`].
pub enum ResourceView {
    Lock { lock: Seq<char> },
    Semaphore { name: Seq<char>, limit: u32, permit: u32 },
}

impl View for ClientResource {
    type V = ResourceView;

    open spec fn view(&self) -> ResourceView {
        match *self {
            ClientResource::Lock { lock } => ResourceView::Lock { lock: lock@ },
            ClientResource::Semaphore { name, limit, permit } => ResourceView::Semaphore {
                name: name@,
                limit,
                permit,
            },
        }
    }
}

impl ResourceView {
    /// The name that the client knows the resource by.
    pub open spec fn client_lock(self) -> Seq<char> {
        match self {
            ResourceView::Lock { lock } => lock,
            ResourceView::Semaphore { name, .. } => name,
        }
    }

    /// What the client is told when the resource is released.
    pub open spec fn release(self) -> ReleaseView {
        match self {
            ResourceView::Lock { lock } => ReleaseView {
                lock,
                semaphore: None,
                limit: None,
                permit: None,
                rwlock: None,
                mode: None,
            },
            ResourceView::Semaphore { name, limit, permit } => ReleaseView {
                lock: name,
                semaphore: Some(name),
                limit: Some(limit),
                permit: Some(permit),
                rwlock: None,
                mode: None,
            },
        }
    }
}

impl ClientResource {
    /// The name that the client knows the resource by.
    pub fn client_lock(&self) -> (s: LockId)
        ensures
            s@ == self@.client_lock(),
    {
        match self {
            ClientResource::Lock { lock } => lock.clone(),
            ClientResource::Semaphore { name, .. } => name.clone(),
        }
    }

    /// What the client is told when the resource is released.
    pub fn release(&self) -> (r: ClientRelease)
        ensures
            r@ == self@.release(),
    {
        match self {
            ClientResource::Lock { lock } => ClientRelease {
                lock: lock.clone(),
                semaphore: None,
                limit: None,
                permit: None,
                rwlock: None,
                mode: None,
            },
            ClientResource::Semaphore { name, limit, permit } => ClientRelease {
                lock: name.clone(),
                semaphore: Some(name.clone()),
                limit: Some(*limit),
                permit: Some(*permit),
                rwlock: None,
                mode: None,
            },
        }
    }
}

// ---- the locks behind semaphores and RW locks ----------------------------------------------------
/// The two resources that are made of slots.
#[derive(Clone, Copy, Debug, PartialEq, Eq, Structural)]
pub enum SlotKind {
    /// Permits of a semaphore.
    Permit,
    /// Reader slots of an RW lock.
    Reader,
}

/// The lock behind one slot of the resource `name` with `limit` slots.
pub open spec fn slot_lock(kind: SlotKind, name: Seq<char>, limit: u32, permit: u32) -> Seq<char> {
    match kind {
        SlotKind::Permit => "__lmx_sem_v1:"@ + decimal(limit as nat) + ":"@ + decimal(
            permit as nat,
        ) + ":"@ + hex_text(encode_utf8(name)),
        SlotKind::Reader => "__lmx_rw_v1:"@ + decimal(limit as nat) + ":slot:"@ + decimal(
            permit as nat,
        ) + ":"@ + hex_text(encode_utf8(name)),
    }
}

/// The lock that admits readers and writers of the RW lock `name`.
pub open spec fn gate_lock(name: Seq<char>, limit: u32) -> Seq<char> {
    "__lmx_rw_v1:"@ + decimal(limit as nat) + ":gate:"@ + hex_text(encode_utf8(name))
}

/// What a waiter for a slot stands for.
pub open spec fn slot_resource(kind: SlotKind, name: Seq<char>, limit: u32, permit: u32) -> ResourceView {
    match kind {
        SlotKind::Permit => ResourceView::Semaphore { name, limit, permit },
        SlotKind::Reader => ResourceView::Lock { lock: slot_lock(kind, name, limit, permit) },
    }
}

/// The bytes of a name in hexadecimal.
fn name_hex(name: &str) -> (v: Vec<char>)
    ensures
        v@ == hex_text(encode_utf8(name@)),
{
    let bytes = name.as_bytes();
    let mut copy: Vec<u8> = Vec::new();
    let mut i: usize = 0;
    while i < bytes.len()
        invariant
            i <= bytes@.len(),
            copy@ == bytes@.take(i as int),
        decreases bytes@.len() - i,
    {
        copy.push(bytes[i]);
        i += 1;
        assert(copy@ =~= bytes@.take(i as int));
    }
    assert(copy@ =~= bytes@);
    hex_encode(&copy)
}

/// The lock behind one slot.
fn slot_lock_name(kind: SlotKind, name: &str, limit: u32, permit: u32) -> (s: LockId)
    ensures
        s@ == slot_lock(kind, name@, limit, permit),
{
    match kind {
        SlotKind::Permit => semaphore_lock_name(name, limit, permit),
        SlotKind::Reader => rw_slot_lock_name(name, limit, permit),
    }
}

/// The lock behind one permit of a semaphore.
pub fn semaphore_lock_name(name: &str, limit: u32, permit: u32) -> (s: LockId)
    ensures
        s@ == slot_lock(SlotKind::Permit, name@, limit, permit),
{
    let mut v = chars_of("__lmx_sem_v1:");
    push_chars(&mut v, &decimal_chars(limit as u64));
    push_str(&mut v, ":");
    push_chars(&mut v, &decimal_chars(permit as u64));
    push_str(&mut v, ":");
    push_chars(&mut v, &name_hex(name));
    string_of(&v)
}

/// The lock behind one reader slot of an RW lock.
pub fn rw_slot_lock_name(name: &str, limit: u32, permit: u32) -> (s: LockId)
    ensures
        s@ == slot_lock(SlotKind::Reader, name@, limit, permit),
{
    let mut v = chars_of("__lmx_rw_v1:");
    push_chars(&mut v, &decimal_chars(limit as u64));
    push_str(&mut v, ":slot:");
    push_chars(&mut v, &decimal_chars(permit as u64));
    push_str(&mut v, ":");
    push_chars(&mut v, &name_hex(name));
    string_of(&v)
}

/// The lock that admits readers and writers of an RW lock.
pub fn rw_gate_lock_name(name: &str, limit: u32) -> (s: LockId)
    ensures
        s@ == gate_lock(name@, limit),
{
    let mut v = chars_of("__lmx_rw_v1:");
    push_chars(&mut v, &decimal_chars(limit as u64));
    push_str(&mut v, ":gate:");
    push_chars(&mut v, &name_hex(name));
    string_of(&v)
}

/// What a waiter for a slot stands for.
fn make_slot_resource(kind: SlotKind, name: &str, limit: u32, permit: u32) -> (r: ClientResource)
    ensures
        r@ == slot_resource(kind, name@, limit, permit),
{
    match kind {
        SlotKind::Permit => ClientResource::Semaphore { name: name.to_owned(), limit, permit },
        SlotKind::Reader => ClientResource::Lock {
            lock: rw_slot_lock_name(name, limit, permit),
        },
    }
}

/// What is wrong with a resource made of slots.
pub open spec fn bounded_error(name: Seq<char>, limit: u32) -> Option<ClientError> {
    if name.len() == 0 {
        Some(ClientError::EmptyLock)
    } else if limit < MIN_SEMAPHORE_LIMIT || limit > MAX_SEMAPHORE_LIMIT {
        Some(ClientError::BadLimit)
    } else {
        None
    }
}

/// Check the name and the number of slots of a resource.
pub fn validate_bounded_resource(name: &str, limit: u32) -> (r: Result<(), ClientError>)
    ensures
        match r {
            Ok(()) => bounded_error(name@, limit) is None,
            Err(e) => bounded_error(name@, limit) == Some(e),
        },
{
    if name.is_empty() {
        return Err(ClientError::EmptyLock);
    }
    if limit < MIN_SEMAPHORE_LIMIT || limit > MAX_SEMAPHORE_LIMIT {
        return Err(ClientError::BadLimit);
    }
    Ok(())
}

// ---- conversations with the coordinator --------------------------------------------------------
/// A request to the coordinator.
#[derive(Clone, Debug, PartialEq, Eq)]
pub enum Ask {
    Acquire { lock: LockId, waiter: WaiterId, resource: ClientResource },
    CancelAcquire { lock: LockId, waiter: WaiterId },
    Release { lock: Option<LockId>, holder: String },
}

/// The content of an [`Ask`].
pub enum AskView {
    Acquire { lock: Seq<char>, waiter: WaiterId, resource: ResourceView },
    CancelAcquire { lock: Seq<char>, waiter: WaiterId },
    Release { lock: Option<Seq<char>>, holder: Seq<char> },
}

impl View for Ask {
    type V = AskView;

    open spec fn view(&self) -> AskView {
        match *self {
            Ask::Acquire { lock, waiter, resource } => AskView::Acquire {
                lock: lock@,
                waiter,
                resource: resource@,
            },
            Ask::CancelAcquire { lock, waiter } => AskView::CancelAcquire { lock: lock@, waiter },
            Ask::Release { lock, holder } => AskView::Release {
                lock: opt_view(lock),
                holder: holder@,
            },
        }
    }
}

/// The contents of requests, in order.
pub open spec fn ask_views(asks: Seq<Ask>) -> Seq<AskView> {
    asks.map_values(|a: Ask| a@)
}

/// The content of an outcome.
pub open spec fn result_view<T: View>(r: Result<T, ClientError>) -> Result<T::V, ClientError> {
    match r {
        Ok(x) => Ok(x@),
        Err(e) => Err(e),
    }
}

/// What the coordinator says to a client.
#[derive(Debug)]
pub enum Heard {
    /// The answer to a waiter.
    Acquired(WaiterId, Result<ClientAcquire, ClientError>),
    /// The answer to a release.
    Released(Result<ClientRelease, ClientError>),
    /// Nothing more will be heard.
    Stopped,
}

/// The content of a [`Heard`].
pub enum HeardView {
    Acquired(WaiterId, Result<AcquireView, ClientError>),
    Released(Result<ReleaseView, ClientError>),
    Stopped,
}

impl View for Heard {
    type V = HeardView;

    open spec fn view(&self) -> HeardView {
        match *self {
            Heard::Acquired(w, r) => HeardView::Acquired(w, result_view(r)),
            Heard::Released(r) => HeardView::Released(result_view(r)),
            Heard::Stopped => HeardView::Stopped,
        }
    }
}

/// What a client gets in the end.
#[derive(Clone, Debug, PartialEq, Eq)]
pub enum Answer {
    Lock(ClientAcquire),
    Semaphore(ClientSemaphoreAcquire),
    Rw(ClientRwAcquire),
    Release(ClientRelease),
}

/// The content of an [`Answer`].
pub enum AnswerView {
    Lock(AcquireView),
    Semaphore(SemaphoreAcquireView),
    Rw(RwAcquireView),
    Release(ReleaseView),
}

impl View for Answer {
    type V = AnswerView;

    open spec fn view(&self) -> AnswerView {
        match *self {
            Answer::Lock(a) => AnswerView::Lock(a@),
            Answer::Semaphore(a) => AnswerView::Semaphore(a@),
            Answer::Rw(a) => AnswerView::Rw(a@),
            Answer::Release(r) => AnswerView::Release(r@),
        }
    }
}

/// A lock that is held, with its holder token.
#[derive(Clone, Debug)]
pub struct HeldLock {
    pub lock: LockId,
    pub holder: String,
}

/// The content of a [`HeldLock`].
#[verifier::ext_equal]
pub struct HeldView {
    pub lock: Seq<char>,
    pub holder: Seq<char>,
}

impl View for HeldLock {
    type V = HeldView;

    open spec fn view(&self) -> HeldView {
        HeldView { lock: self.lock@, holder: self.holder@ }
    }
}

/// The contents of held locks, in order.
pub open spec fn held_views(parts: Seq<HeldLock>) -> Seq<HeldView> {
    parts.map_values(|p: HeldLock| p@)
}

/// One side of an RW lock that is held: the locks that make it up.
#[derive(Debug)]
pub struct RwBundle {
    pub name: String,
    pub limit: u32,
    pub mode: RwMode,
    pub permit: Option<u32>,
    pub parts: Vec<HeldLock>,
}

/// The content of an [`RwBundle`].
#[verifier::ext_equal]
pub struct BundleView {
    pub name: Seq<char>,
    pub limit: u32,
    pub mode: RwMode,
    pub permit: Option<u32>,
    pub parts: Seq<HeldView>,
}

impl View for RwBundle {
    type V = BundleView;

    open spec fn view(&self) -> BundleView {
        BundleView {
            name: self.name@,
            limit: self.limit,
            mode: self.mode,
            permit: self.permit,
            parts: held_views(self.parts@),
        }
    }
}

impl BundleView {
    /// What the client is told when the bundle is released.
    pub open spec fn release(self) -> ReleaseView {
        ReleaseView {
            lock: self.name,
            semaphore: None,
            limit: Some(self.limit),
            permit: self.permit,
            rwlock: Some(self.name),
            mode: Some(self.mode),
        }
    }

    /// A reader has the slot of its permit; a writer has every slot and the
    /// gate.
    pub open spec fn wf(self) -> bool {
        &&& bounded_error(self.name, self.limit) is None
        &&& match self.mode {
            RwMode::Read => {
                &&& self.permit matches Some(p) && p < self.limit && self.parts.len() == 1
                    && self.parts[0].lock == slot_lock(
                    SlotKind::Reader,
                    self.name,
                    self.limit,
                    p,
                )
            },
            RwMode::Write => {
                &&& self.permit is None
                &&& self.parts.len() == self.limit + 1
                &&& forall|i: int|
                    0 <= i < self.limit ==> (#[trigger] self.parts[i]).lock == slot_lock(
                        SlotKind::Reader,
                        self.name,
                        self.limit,
                        i as u32,
                    )
                &&& self.parts[self.limit as int].lock == gate_lock(self.name, self.limit)
            },
        }
    }
}

impl RwBundle {
    /// What the client is told when the bundle is released.
    pub fn release(&self) -> (r: ClientRelease)
        ensures
            r@ == self@.release(),
    {
        ClientRelease {
            lock: self.name.clone(),
            semaphore: None,
            limit: Some(self.limit),
            permit: self.permit,
            rwlock: Some(self.name.clone()),
            mode: Some(self.mode),
        }
    }
}

/// A slot that has been asked for.
#[derive(Debug)]
pub struct Slot {
    pub waiter: WaiterId,
    pub permit: u32,
    pub lock: LockId,
}

/// The content of a [`Slot`].
#[verifier::ext_equal]
pub struct SlotView {
    pub waiter: WaiterId,
    pub permit: u32,
    pub lock: Seq<char>,
}

impl View for Slot {
    type V = SlotView;

    open spec fn view(&self) -> SlotView {
        SlotView { waiter: self.waiter, permit: self.permit, lock: self.lock@ }
    }
}

/// The contents of slots, in order.
pub open spec fn slot_views(slots: Seq<Slot>) -> Seq<SlotView> {
    slots.map_values(|s: Slot| s@)
}

/// Where the slot of a waiter is; the length if there is none.
pub open spec fn slot_index(slots: Seq<SlotView>, w: WaiterId) -> int
    decreases slots.len(),
{
    if slots.len() == 0 || slots[0].waiter == w {
        0
    } else {
        1 + slot_index(slots.skip(1), w)
    }
}

/// The requests that withdraw from slots.
pub open spec fn cancellations(slots: Seq<SlotView>) -> Seq<AskView> {
    slots.map_values(|s: SlotView| AskView::CancelAcquire { lock: s.lock, waiter: s.waiter })
}

/// The request that gives a held lock back.
pub open spec fn give_back(part: HeldView) -> AskView {
    AskView::Release { lock: Some(part.lock), holder: part.holder }
}

/// A reader slot that has been acquired.
#[derive(Debug)]
pub struct WonSlot {
    pub permit: u32,
    pub part: HeldLock,
    pub fence: Fence,
}

/// The content of a [`WonSlot`].
#[verifier::ext_equal]
pub struct WonView {
    pub permit: u32,
    pub part: HeldView,
    pub fence: Fence,
}

impl View for WonSlot {
    type V = WonView;

    open spec fn view(&self) -> WonView {
        WonView { permit: self.permit, part: self.part@, fence: self.fence }
    }
}

/// What a call waits for.
#[derive(Debug)]
pub enum Stage {
    /// Nothing: the call is over.
    Done(Result<Answer, ClientError>),
    /// A lock.
    Lock,
    /// A permit of a semaphore.
    Semaphore { name: String, limit: u32, pending: Vec<Slot> },
    /// The admission gate, for a reader.
    ReadGate { name: String, limit: u32 },
    /// A reader slot, with the admission gate held.
    ReadSlot { name: String, limit: u32, gate: HeldLock, pending: Vec<Slot> },
    /// The release of the admission gate, after the slot was acquired or not.
    ReadRelease { name: String, limit: u32, slot: Result<WonSlot, ClientError> },
    /// The release of the slot, after the admission gate could not be released.
    ReadUndo { error: ClientError },
    /// The admission gate, for a writer.
    WriteGate { name: String, limit: u32 },
    /// The next slot, with the admission gate and the slots before it held.
    WriteSlot { name: String, limit: u32, gate: HeldLock, fence: Fence, parts: Vec<HeldLock> },
    /// The release of what a writer got before it failed.
    WriteUndo { error: ClientError, left: Vec<HeldLock> },
    /// A release.
    Release,
    /// The release of one part of a bundle after the other.
    ReleaseBundle { bundle: RwBundle, next: usize, first_error: Option<ClientError> },
}

/// The content of a [`Stage`].
pub enum StageView {
    Done(Result<AnswerView, ClientError>),
    Lock,
    Semaphore { name: Seq<char>, limit: u32, pending: Seq<SlotView> },
    ReadGate { name: Seq<char>, limit: u32 },
    ReadSlot { name: Seq<char>, limit: u32, gate: HeldView, pending: Seq<SlotView> },
    ReadRelease { name: Seq<char>, limit: u32, slot: Result<WonView, ClientError> },
    ReadUndo { error: ClientError },
    WriteGate { name: Seq<char>, limit: u32 },
    WriteSlot { name: Seq<char>, limit: u32, gate: HeldView, fence: Fence, parts: Seq<HeldView> },
    WriteUndo { error: ClientError, left: Seq<HeldView> },
    Release,
    ReleaseBundle { bundle: BundleView, next: nat, first_error: Option<ClientError> },
}

impl View for Stage {
    type V = StageView;

    open spec fn view(&self) -> StageView {
        match *self {
            Stage::Done(r) => StageView::Done(result_view(r)),
            Stage::Lock => StageView::Lock,
            Stage::Semaphore { name, limit, pending } => StageView::Semaphore {
                name: name@,
                limit,
                pending: slot_views(pending@),
            },
            Stage::ReadGate { name, limit } => StageView::ReadGate { name: name@, limit },
            Stage::ReadSlot { name, limit, gate, pending } => StageView::ReadSlot {
                name: name@,
                limit,
                gate: gate@,
                pending: slot_views(pending@),
            },
            Stage::ReadRelease { name, limit, slot } => StageView::ReadRelease {
                name: name@,
                limit,
                slot: result_view(slot),
            },
            Stage::ReadUndo { error } => StageView::ReadUndo { error },
            Stage::WriteGate { name, limit } => StageView::WriteGate { name: name@, limit },
            Stage::WriteSlot { name, limit, gate, fence, parts } => StageView::WriteSlot {
                name: name@,
                limit,
                gate: gate@,
                fence,
                parts: held_views(parts@),
            },
            Stage::WriteUndo { error, left } => StageView::WriteUndo {
                error,
                left: held_views(left@),
            },
            Stage::Release => StageView::Release,
            Stage::ReleaseBundle { bundle, next, first_error } => StageView::ReleaseBundle {
                bundle: bundle@,
                next: next as nat,
                first_error,
            },
        }
    }
}

/// A call in progress: what it waits for, and what it asks of the coordinator
/// now.
#[derive(Debug)]
pub struct Call {
    pub stage: Stage,
    pub asks: Vec<Ask>,
}

/// The content of a [`Call`].
#[verifier::ext_equal]
pub struct CallView {
    pub stage: StageView,
    pub asks: Seq<AskView>,
}

impl View for Call {
    type V = CallView;

    open spec fn view(&self) -> CallView {
        CallView { stage: self.stage@, asks: ask_views(self.asks@) }
    }
}

/// A call that is over.
pub open spec fn over(r: Result<AnswerView, ClientError>) -> CallView {
    CallView { stage: StageView::Done(r), asks: Seq::empty() }
}

/// A call that asks one thing and waits.
pub open spec fn asking(stage: StageView, ask: AskView) -> CallView {
    CallView { stage, asks: seq![ask] }
}

// ---- the client: model ---------------------------------------------------------------------------
/// The `i`-th id from `first` on; ids start again behind the greatest one.
pub open spec fn nth_id(first: u64, i: nat) -> u64 {
    ((first + i) % 0x1_0000_0000_0000_0000) as u64
}

/// The `n`-th holder token of an RW lock.
pub open spec fn rw_token(n: nat) -> Seq<char> {
    "rw"@ + hex_number(n, 16)
}

/// A holder token of some RW lock.
pub open spec fn is_rw_token(token: Seq<char>) -> bool {
    exists|n: u64| token == #[trigger] rw_token(n as nat)
}

/// What an answer means to somebody who waits for one of several slots.
pub enum RaceView {
    /// This slot is held; the others are not needed.
    Won { slot: SlotView, rest: Seq<SlotView>, acquired: AcquireView },
    /// No slot can be had.
    Lost(ClientError),
    /// A lock that was not asked for is held.
    Stray(AcquireView),
    /// These slots can still be had.
    Waiting(Seq<SlotView>),
}

/// What an answer means to somebody who waits for one of `pending`.
pub open spec fn race(pending: Seq<SlotView>, heard: HeardView) -> RaceView {
    match heard {
        HeardView::Acquired(w, Ok(a)) => {
            let i = slot_index(pending, w);
            if i < pending.len() {
                RaceView::Won { slot: pending[i], rest: pending.remove(i), acquired: a }
            } else {
                RaceView::Stray(a)
            }
        },
        HeardView::Acquired(w, Err(e)) => {
            let i = slot_index(pending, w);
            let rest = if i < pending.len() {
                pending.remove(i)
            } else {
                pending
            };
            if rest.len() == 0 {
                RaceView::Lost(e)
            } else {
                RaceView::Waiting(rest)
            }
        },
        HeardView::Released(_) => RaceView::Waiting(pending),
        HeardView::Stopped => RaceView::Lost(ClientError::Stopped),
    }
}

/// The answer to a release, once it is there.
pub open spec fn release_reply(heard: HeardView) -> Option<Result<ReleaseView, ClientError>> {
    match heard {
        HeardView::Released(r) => Some(r),
        HeardView::Stopped => Some(Err(ClientError::Stopped)),
        HeardView::Acquired(_, _) => None,
    }
}

/// The answer to a request for one lock, once it is there.
pub open spec fn lock_reply(heard: HeardView) -> Option<Result<AcquireView, ClientError>> {
    match heard {
        HeardView::Acquired(_, r) => Some(r),
        HeardView::Stopped => Some(Err(ClientError::Stopped)),
        HeardView::Released(_) => None,
    }
}

/// The state of a [`LockClient`].
#[verifier::ext_equal]
pub struct LockClientView {
    pub next_waiter: u64,
    pub next_rw_holder: u64,
    /// The sides of RW locks that are held, by holder token.
    pub bundles: Table<BundleView>,
}

impl LockClientView {
    /// Nothing has been asked for.
    pub open spec fn fresh() -> LockClientView {
        LockClientView { next_waiter: 1, next_rw_holder: 1, bundles: Table::empty() }
    }

    /// Every bundle is one, a reader's or a writer's, and has a token of RW locks.
    pub open spec fn wf(self) -> bool {
        &&& self.bundles.wf()
        &&& forall|t: Seq<char>| #[trigger]
            self.bundles.map.contains_key(t) ==> self.bundles.map[t].wf() && is_rw_token(t)
    }

    /// The client with `n` more ids given out.
    pub open spec fn skip_waiters(self, n: nat) -> LockClientView {
        LockClientView { next_waiter: nth_id(self.next_waiter, n), ..self }
    }

    /// Ask for one lock and wait.
    pub open spec fn ask_lock(self, lock: Seq<char>, stage: StageView) -> (
        LockClientView,
        CallView,
    ) {
        (
            self.skip_waiters(1),
            asking(
                stage,
                AskView::Acquire {
                    lock,
                    waiter: self.next_waiter,
                    resource: ResourceView::Lock { lock },
                },
            ),
        )
    }

    /// The slots of a resource, with the ids that ask for them.
    pub open spec fn slots(self, kind: SlotKind, name: Seq<char>, limit: u32) -> Seq<SlotView> {
        Seq::new(
            limit as nat,
            |i: int|
                SlotView {
                    waiter: nth_id(self.next_waiter, i as nat),
                    permit: i as u32,
                    lock: slot_lock(kind, name, limit, i as u32),
                },
        )
    }

    /// The requests for all slots of a resource.
    pub open spec fn slot_asks(self, kind: SlotKind, name: Seq<char>, limit: u32) -> Seq<AskView> {
        Seq::new(
            limit as nat,
            |i: int|
                AskView::Acquire {
                    lock: slot_lock(kind, name, limit, i as u32),
                    waiter: nth_id(self.next_waiter, i as nat),
                    resource: slot_resource(kind, name, limit, i as u32),
                },
        )
    }

    /// Queue for a lock.
    pub open spec fn acquire(self, lock: Seq<char>) -> (LockClientView, CallView) {
        if lock.len() == 0 {
            (self, over(Err(ClientError::EmptyLock)))
        } else {
            self.ask_lock(lock, StageView::Lock)
        }
    }

    /// Queue for one permit of a semaphore: for all of them, until one is held.
    pub open spec fn acquire_semaphore(self, name: Seq<char>, limit: u32) -> (
        LockClientView,
        CallView,
    ) {
        match bounded_error(name, limit) {
            Some(e) => (self, over(Err(e))),
            None => (
                self.skip_waiters(limit as nat),
                CallView {
                    stage: StageView::Semaphore {
                        name,
                        limit,
                        pending: self.slots(SlotKind::Permit, name, limit),
                    },
                    asks: self.slot_asks(SlotKind::Permit, name, limit),
                },
            ),
        }
    }

    /// Queue for the shared side of an RW lock: first for the admission gate.
    pub open spec fn acquire_read(self, name: Seq<char>, limit: u32) -> (
        LockClientView,
        CallView,
    ) {
        match bounded_error(name, limit) {
            Some(e) => (self, over(Err(e))),
            None => self.ask_lock(gate_lock(name, limit), StageView::ReadGate { name, limit }),
        }
    }

    /// Queue for the exclusive side of an RW lock: first for the admission gate.
    pub open spec fn acquire_write(self, name: Seq<char>, limit: u32) -> (
        LockClientView,
        CallView,
    ) {
        match bounded_error(name, limit) {
            Some(e) => (self, over(Err(e))),
            None => self.ask_lock(gate_lock(name, limit), StageView::WriteGate { name, limit }),
        }
    }

    /// Give a bundle back, part by part.
    pub open spec fn give_bundle_back(self, token: Seq<char>) -> (LockClientView, CallView) {
        let bundle = self.bundles.map[token];
        let client = LockClientView { bundles: self.bundles.del(token), ..self };
        if bundle.parts.len() == 0 {
            (client, over(Ok(AnswerView::Release(bundle.release()))))
        } else {
            (
                client,
                asking(
                    StageView::ReleaseBundle { bundle, next: 0, first_error: None },
                    give_back(bundle.parts[0]),
                ),
            )
        }
    }

    /// Release what the token holds: a side of an RW lock, or whatever the
    /// coordinator knows it for.
    pub open spec fn release(self, holder: Seq<char>) -> (LockClientView, CallView) {
        if self.bundles.map.contains_key(holder) {
            self.give_bundle_back(holder)
        } else {
            (self, asking(StageView::Release, AskView::Release { lock: None, holder }))
        }
    }

    /// Release a lock by name.
    pub open spec fn release_lock(self, lock: Seq<char>, holder: Seq<char>) -> (
        LockClientView,
        CallView,
    ) {
        (self, asking(StageView::Release, AskView::Release { lock: Some(lock), holder }))
    }

    /// Release a side of an RW lock by name.
    pub open spec fn release_rw_lock(self, name: Seq<char>, holder: Seq<char>) -> (
        LockClientView,
        CallView,
    ) {
        if !self.bundles.map.contains_key(holder) {
            (self, over(Err(ClientError::NotHeld)))
        } else if self.bundles.map[holder].name != name {
            (self, over(Err(ClientError::HolderMismatch)))
        } else {
            self.give_bundle_back(holder)
        }
    }

    /// The client with one more bundle, under the next token.
    pub open spec fn registered(self, bundle: BundleView) -> LockClientView {
        LockClientView {
            next_rw_holder: nth_id(self.next_rw_holder, 1),
            bundles: self.bundles.put(rw_token(self.next_rw_holder as nat), bundle),
            ..self
        }
    }

    /// The reader's side is held.
    pub open spec fn read_done(self, name: Seq<char>, limit: u32, won: WonView) -> (
        LockClientView,
        CallView,
    ) {
        let bundle = BundleView {
            name,
            limit,
            mode: RwMode::Read,
            permit: Some(won.permit),
            parts: seq![won.part],
        };
        (
            self.registered(bundle),
            over(
                Ok(
                    AnswerView::Rw(
                        RwAcquireView {
                            rwlock: name,
                            mode: RwMode::Read,
                            limit,
                            permit: Some(won.permit),
                            fence: won.fence,
                            holder: rw_token(self.next_rw_holder as nat),
                        },
                    ),
                ),
            ),
        )
    }

    /// The writer has one more slot; with all of them, its side is held.
    pub open spec fn write_step(
        self,
        name: Seq<char>,
        limit: u32,
        gate: HeldView,
        fence: Fence,
        parts: Seq<HeldView>,
    ) -> (LockClientView, CallView) {
        if parts.len() < limit {
            self.ask_lock(
                slot_lock(SlotKind::Reader, name, limit, parts.len() as u32),
                StageView::WriteSlot { name, limit, gate, fence, parts },
            )
        } else {
            let bundle = BundleView {
                name,
                limit,
                mode: RwMode::Write,
                permit: None,
                parts: parts.push(gate),
            };
            (
                self.registered(bundle),
                over(
                    Ok(
                        AnswerView::Rw(
                            RwAcquireView {
                                rwlock: name,
                                mode: RwMode::Write,
                                limit,
                                permit: None,
                                fence,
                                holder: rw_token(self.next_rw_holder as nat),
                            },
                        ),
                    ),
                ),
            )
        }
    }

    /// What a call makes of what it hears.
    pub open spec fn hear(self, stage: StageView, heard: HeardView) -> (LockClientView, CallView) {
        match stage {
            StageView::Done(r) => (self, over(r)),
            StageView::Lock => match lock_reply(heard) {
                Some(Ok(a)) => (self, over(Ok(AnswerView::Lock(a)))),
                Some(Err(e)) => (self, over(Err(e))),
                None => (self, CallView { stage, asks: Seq::empty() }),
            },
            StageView::Semaphore { name, limit, pending } => (
                self,
                hear_semaphore(name, limit, race(pending, heard), pending),
            ),
            StageView::ReadGate { name, limit } => match lock_reply(heard) {
                Some(Ok(a)) => {
                    let gate = HeldView { lock: gate_lock(name, limit), holder: a.holder };
                    (
                        self.skip_waiters(limit as nat),
                        CallView {
                            stage: StageView::ReadSlot {
                                name,
                                limit,
                                gate,
                                pending: self.slots(SlotKind::Reader, name, limit),
                            },
                            asks: self.slot_asks(SlotKind::Reader, name, limit),
                        },
                    )
                },
                Some(Err(e)) => (self, over(Err(e))),
                None => (self, CallView { stage, asks: Seq::empty() }),
            },
            StageView::ReadSlot { name, limit, gate, pending } => (
                self,
                hear_read_slot(name, limit, gate, race(pending, heard), pending),
            ),
            StageView::ReadRelease { name, limit, slot } => match release_reply(heard) {
                Some(r) => match slot {
                    Ok(won) => match r {
                        Ok(_) => self.read_done(name, limit, won),
                        Err(e) => (
                            self,
                            asking(StageView::ReadUndo { error: e }, give_back(won.part)),
                        ),
                    },
                    Err(e) => (self, over(Err(e))),
                },
                None => (self, CallView { stage, asks: Seq::empty() }),
            },
            StageView::ReadUndo { error } => match release_reply(heard) {
                Some(_) => (self, over(Err(error))),
                None => (self, CallView { stage, asks: Seq::empty() }),
            },
            StageView::WriteGate { name, limit } => match lock_reply(heard) {
                Some(Ok(a)) => self.write_step(
                    name,
                    limit,
                    HeldView { lock: gate_lock(name, limit), holder: a.holder },
                    a.fence,
                    Seq::empty(),
                ),
                Some(Err(e)) => (self, over(Err(e))),
                None => (self, CallView { stage, asks: Seq::empty() }),
            },
            StageView::WriteSlot { name, limit, gate, fence, parts } => match lock_reply(heard) {
                Some(Ok(a)) => self.write_step(
                    name,
                    limit,
                    gate,
                    if a.fence > fence {
                        a.fence
                    } else {
                        fence
                    },
                    parts.push(
                        HeldView {
                            lock: slot_lock(SlotKind::Reader, name, limit, parts.len() as u32),
                            holder: a.holder,
                        },
                    ),
                ),
                Some(Err(e)) => (self, undo(e, parts.reverse().push(gate))),
                None => (self, CallView { stage, asks: Seq::empty() }),
            },
            StageView::WriteUndo { error, left } => match release_reply(heard) {
                Some(_) => (self, undo(error, left.skip(1))),
                None => (self, CallView { stage, asks: Seq::empty() }),
            },
            StageView::Release => match release_reply(heard) {
                Some(Ok(r)) => (self, over(Ok(AnswerView::Release(r)))),
                Some(Err(e)) => (self, over(Err(e))),
                None => (self, CallView { stage, asks: Seq::empty() }),
            },
            StageView::ReleaseBundle { bundle, next, first_error } => match release_reply(heard) {
                Some(r) => {
                    let error = match (first_error, r) {
                        (None, Err(e)) => Some(e),
                        _ => first_error,
                    };
                    if next + 1 < bundle.parts.len() {
                        (
                            self,
                            asking(
                                StageView::ReleaseBundle {
                                    bundle,
                                    next: next + 1,
                                    first_error: error,
                                },
                                give_back(bundle.parts[next as int + 1]),
                            ),
                        )
                    } else {
                        match error {
                            Some(e) => (self, over(Err(e))),
                            None => (self, over(Ok(AnswerView::Release(bundle.release())))),
                        }
                    }
                },
                None => (self, CallView { stage, asks: Seq::empty() }),
            },
        }
    }
}

/// What somebody who waits for a permit does next.
pub open spec fn hear_semaphore(
    name: Seq<char>,
    limit: u32,
    r: RaceView,
    pending: Seq<SlotView>,
) -> CallView {
    match r {
        RaceView::Won { slot, rest, acquired } => CallView {
            stage: StageView::Done(
                Ok(
                    AnswerView::Semaphore(
                        SemaphoreAcquireView {
                            semaphore: name,
                            limit,
                            permit: slot.permit,
                            fence: acquired.fence,
                            holder: acquired.holder,
                        },
                    ),
                ),
            ),
            asks: cancellations(rest),
        },
        RaceView::Lost(e) => over(Err(e)),
        RaceView::Stray(a) => asking(
            StageView::Semaphore { name, limit, pending },
            AskView::Release { lock: None, holder: a.holder },
        ),
        RaceView::Waiting(rest) => CallView {
            stage: StageView::Semaphore { name, limit, pending: rest },
            asks: Seq::empty(),
        },
    }
}

/// What a reader that waits for a slot does next.
pub open spec fn hear_read_slot(
    name: Seq<char>,
    limit: u32,
    gate: HeldView,
    r: RaceView,
    pending: Seq<SlotView>,
) -> CallView {
    match r {
        RaceView::Won { slot, rest, acquired } => CallView {
            stage: StageView::ReadRelease {
                name,
                limit,
                slot: Ok(
                    WonView {
                        permit: slot.permit,
                        part: HeldView { lock: slot.lock, holder: acquired.holder },
                        fence: acquired.fence,
                    },
                ),
            },
            asks: cancellations(rest).push(give_back(gate)),
        },
        RaceView::Lost(e) => asking(
            StageView::ReadRelease { name, limit, slot: Err(e) },
            give_back(gate),
        ),
        RaceView::Stray(a) => asking(
            StageView::ReadSlot { name, limit, gate, pending },
            AskView::Release { lock: Some(a.lock), holder: a.holder },
        ),
        RaceView::Waiting(rest) => CallView {
            stage: StageView::ReadSlot { name, limit, gate, pending: rest },
            asks: Seq::empty(),
        },
    }
}

/// Give back what is left, first to last, then fail.
pub open spec fn undo(error: ClientError, left: Seq<HeldView>) -> CallView {
    if left.len() == 0 {
        over(Err(error))
    } else {
        asking(StageView::WriteUndo { error, left }, give_back(left[0]))
    }
}

/// Slots of a resource.
pub open spec fn slots_of(
    kind: SlotKind,
    name: Seq<char>,
    limit: u32,
    pending: Seq<SlotView>,
) -> bool {
    forall|i: int|
        0 <= i < pending.len() ==> (#[trigger] pending[i]).permit < limit && pending[i].lock
            == slot_lock(kind, name, limit, pending[i].permit)
}

/// What a call in progress keeps to: names and limits are in order, who waits for a
/// permit or a slot waits for those of its resource, and a writer has the slots from
/// the first on.
pub open spec fn stage_wf(stage: StageView) -> bool {
    match stage {
        StageView::Semaphore { name, limit, pending } => {
            &&& bounded_error(name, limit) is None
            &&& slots_of(SlotKind::Permit, name, limit, pending)
        },
        StageView::ReadGate { name, limit } => bounded_error(name, limit) is None,
        StageView::ReadSlot { name, limit, gate, pending } => {
            &&& bounded_error(name, limit) is None
            &&& slots_of(SlotKind::Reader, name, limit, pending)
        },
        StageView::ReadRelease { name, limit, slot } => {
            &&& bounded_error(name, limit) is None
            &&& slot matches Ok(won) ==> won.permit < limit && won.part.lock == slot_lock(
                SlotKind::Reader,
                name,
                limit,
                won.permit,
            )
        },
        StageView::WriteGate { name, limit } => bounded_error(name, limit) is None,
        StageView::WriteSlot { name, limit, gate, fence, parts } => {
            &&& bounded_error(name, limit) is None
            &&& gate.lock == gate_lock(name, limit)
            &&& parts.len() < limit
            &&& forall|i: int|
                0 <= i < parts.len() ==> (#[trigger] parts[i]).lock == slot_lock(
                    SlotKind::Reader,
                    name,
                    limit,
                    i as u32,
                )
        },
        StageView::ReleaseBundle { bundle, next, first_error } => next < bundle.parts.len(),
        StageView::WriteUndo { error, left } => left.len() > 0,
        _ => true,
    }
}

/// Where the slot of a waiter is.
pub proof fn lemma_slot_index(slots: Seq<SlotView>, w: WaiterId)
    ensures
        0 <= slot_index(slots, w) <= slots.len(),
        slot_index(slots, w) < slots.len() ==> slots[slot_index(slots, w)].waiter == w,
        forall|j: int| 0 <= j < slot_index(slots, w) ==> (#[trigger] slots[j]).waiter != w,
    decreases slots.len(),
{
    if slots.len() > 0 && slots[0].waiter != w {
        let rest = slots.skip(1);
        lemma_slot_index(rest, w);
        assert forall|j: int| 0 <= j < slot_index(slots, w) implies (#[trigger] slots[j]).waiter
            != w by {
            if j > 0 {
                assert(slots[j] == rest[j - 1]);
            }
        }
    }
}

/// Whatever is heard, what is won and what is left are slots of the same resource.
proof fn lemma_race_slots(
    kind: SlotKind,
    name: Seq<char>,
    limit: u32,
    pending: Seq<SlotView>,
    heard: HeardView,
)
    requires
        slots_of(kind, name, limit, pending),
    ensures
        match race(pending, heard) {
            RaceView::Won { slot, rest, .. } => slot.permit < limit && slot.lock == slot_lock(
                kind,
                name,
                limit,
                slot.permit,
            ) && slots_of(kind, name, limit, rest),
            RaceView::Waiting(rest) => slots_of(kind, name, limit, rest),
            _ => true,
        },
{
    if let HeardView::Acquired(w, r) = heard {
        lemma_slot_index(pending, w);
        let i = slot_index(pending, w);
        if i < pending.len() {
            let rest = pending.remove(i);
            assert forall|j: int| 0 <= j < rest.len() implies (#[trigger] rest[j]).permit < limit
                && rest[j].lock == slot_lock(kind, name, limit, rest[j].permit) by {
                let k = if j < i {
                    j
                } else {
                    j + 1
                };
                assert(rest[j] == pending[k]);
            }
            assert(pending[i].permit < limit);
        }
    }
}

impl LockClientView {
    /// A new bundle keeps the client in order.
    proof fn lemma_registered_wf(self, bundle: BundleView)
        requires
            self.wf(),
            bundle.wf(),
        ensures
            self.registered(bundle).wf(),
    {
        let t = rw_token(self.next_rw_holder as nat);
        lemma_table_put_wf(self.bundles, t, bundle);
        let c = self.registered(bundle);
        assert(t == rw_token(self.next_rw_holder as nat));
        assert forall|u: Seq<char>| #[trigger] c.bundles.map.contains_key(u) implies c.bundles.map[u].wf()
            && is_rw_token(u) by {
            if u != t {
                assert(self.bundles.map.contains_key(u));
            }
        }
    }

    /// A writer's step keeps the client and the call in order.
    proof fn lemma_write_step_wf(
        self,
        name: Seq<char>,
        limit: u32,
        gate: HeldView,
        fence: Fence,
        parts: Seq<HeldView>,
    )
        requires
            self.wf(),
            bounded_error(name, limit) is None,
            gate.lock == gate_lock(name, limit),
            parts.len() <= limit,
            forall|i: int|
                0 <= i < parts.len() ==> (#[trigger] parts[i]).lock == slot_lock(
                    SlotKind::Reader,
                    name,
                    limit,
                    i as u32,
                ),
        ensures
            self.write_step(name, limit, gate, fence, parts).0.wf(),
            stage_wf(self.write_step(name, limit, gate, fence, parts).1.stage),
    {
        if parts.len() == limit {
            let bundle = BundleView {
                name,
                limit,
                mode: RwMode::Write,
                permit: None,
                parts: parts.push(gate),
            };
            assert forall|i: int| 0 <= i < limit implies (#[trigger] bundle.parts[i]).lock
                == slot_lock(SlotKind::Reader, name, limit, i as u32) by {
                assert(bundle.parts[i] == parts[i]);
            }
            self.lemma_registered_wf(bundle);
        }
    }

    /// Starting a release keeps the client and the call in order.
    pub proof fn lemma_give_back_wf(self, token: Seq<char>)
        requires
            self.wf(),
            self.bundles.map.contains_key(token),
        ensures
            self.give_bundle_back(token).0.wf(),
            stage_wf(self.give_bundle_back(token).1.stage),
    {
        lemma_table_del_wf(self.bundles, token);
        let c = self.give_bundle_back(token).0;
        assert forall|u: Seq<char>| #[trigger] c.bundles.map.contains_key(u) implies c.bundles.map[u].wf() by {
            assert(self.bundles.map.contains_key(u));
        }
    }

    /// Whatever a call hears keeps the client and the call in order.
    pub proof fn lemma_hear_wf(self, stage: StageView, heard: HeardView)
        requires
            self.wf(),
            stage_wf(stage),
        ensures
            self.hear(stage, heard).0.wf(),
            stage_wf(self.hear(stage, heard).1.stage),
    {
        match stage {
            StageView::Semaphore { name, limit, pending } => {
                lemma_race_slots(SlotKind::Permit, name, limit, pending, heard);
            },
            StageView::ReadSlot { name, limit, gate, pending } => {
                lemma_race_slots(SlotKind::Reader, name, limit, pending, heard);
            },
            StageView::ReadRelease { name, limit, slot } => {
                if let Ok(won) = slot {
                    let bundle = BundleView {
                        name,
                        limit,
                        mode: RwMode::Read,
                        permit: Some(won.permit),
                        parts: seq![won.part],
                    };
                    self.lemma_registered_wf(bundle);
                }
            },
            StageView::WriteGate { name, limit } => {
                if let Some(Ok(a)) = lock_reply(heard) {
                    self.lemma_write_step_wf(
                        name,
                        limit,
                        HeldView { lock: gate_lock(name, limit), holder: a.holder },
                        a.fence,
                        Seq::empty(),
                    );
                }
            },
            StageView::WriteSlot { name, limit, gate, fence, parts } => {
                if let Some(Ok(a)) = lock_reply(heard) {
                    let more = parts.push(
                        HeldView {
                            lock: slot_lock(SlotKind::Reader, name, limit, parts.len() as u32),
                            holder: a.holder,
                        },
                    );
                    assert forall|i: int| 0 <= i < more.len() implies (#[trigger] more[i]).lock
                        == slot_lock(SlotKind::Reader, name, limit, i as u32) by {
                        if i < parts.len() {
                            assert(more[i] == parts[i]);
                        }
                    }
                    let best = if a.fence > fence {
                        a.fence
                    } else {
                        fence
                    };
                    self.lemma_write_step_wf(name, limit, gate, best, more);
                }
            },
            _ => {},
        }
    }
}

// ---- the client ------------------------------------------------------------------------------------
/// What an answer means to somebody who waits for one of several slots.
enum Race {
    Won { slot: Slot, rest: Vec<Slot>, acquired: ClientAcquire },
    Lost(ClientError),
    Stray(ClientAcquire, Vec<Slot>),
    Waiting(Vec<Slot>),
}

impl View for Race {
    type V = RaceView;

    closed spec fn view(&self) -> RaceView {
        match *self {
            Race::Won { slot, rest, acquired } => RaceView::Won {
                slot: slot@,
                rest: slot_views(rest@),
                acquired: acquired@,
            },
            Race::Lost(e) => RaceView::Lost(e),
            Race::Stray(a, _) => RaceView::Stray(a@),
            Race::Waiting(rest) => RaceView::Waiting(slot_views(rest@)),
        }
    }
}

/// Take the slot of a waiter out, if it is there.
fn take_slot(pending: &mut Vec<Slot>, w: WaiterId) -> (r: Option<Slot>)
    ensures
        match r {
            Some(slot) => {
                let i = slot_index(slot_views(old(pending)@), w);
                &&& 0 <= i < old(pending)@.len()
                &&& slot@ == slot_views(old(pending)@)[i]
                &&& slot_views(final(pending)@) == slot_views(old(pending)@).remove(i)
            },
            None => slot_index(slot_views(old(pending)@), w) == old(pending)@.len()
                && final(pending)@ == old(pending)@,
        },
{
    let ghost views = slot_views(pending@);
    proof {
        lemma_slot_index(views, w);
    }
    let mut i: usize = 0;
    while i < pending.len()
        invariant
            pending@ == old(pending)@,
            views == slot_views(pending@),
            i <= slot_index(views, w) <= views.len(),
            slot_index(views, w) < views.len() ==> views[slot_index(views, w)].waiter == w,
            forall|j: int| 0 <= j < slot_index(views, w) ==> (#[trigger] views[j]).waiter != w,
        decreases pending@.len() - i,
    {
        assert(views[i as int] == pending@[i as int]@);
        if pending[i].waiter == w {
            let slot = pending.remove(i);
            assert(slot_views(pending@) =~= views.remove(i as int));
            return Some(slot);
        }
        i += 1;
    }
    None
}

/// What an answer means to somebody who waits for one of `pending`.
fn run_race(pending: Vec<Slot>, heard: Heard) -> (r: Race)
    ensures
        r@ == race(slot_views(pending@), heard@),
        r matches Race::Stray(_, same) ==> same@ == pending@,
{
    let mut pending = pending;
    match heard {
        Heard::Acquired(w, Ok(a)) => match take_slot(&mut pending, w) {
            Some(slot) => Race::Won { slot, rest: pending, acquired: a },
            None => Race::Stray(a, pending),
        },
        Heard::Acquired(w, Err(e)) => {
            let _ = take_slot(&mut pending, w);
            if pending.len() == 0 {
                Race::Lost(e)
            } else {
                Race::Waiting(pending)
            }
        },
        Heard::Released(_) => Race::Waiting(pending),
        Heard::Stopped => Race::Lost(ClientError::Stopped),
    }
}

/// A call that is over.
fn call_over(r: Result<Answer, ClientError>) -> (c: Call)
    ensures
        c@ == over(result_view(r)),
{
    let c = Call { stage: Stage::Done(r), asks: Vec::new() };
    assert(c@ =~= over(result_view(r)));
    c
}

/// A call that asks one thing and waits.
fn call_asking(stage: Stage, ask: Ask) -> (c: Call)
    ensures
        c@ == asking(stage@, ask@),
{
    let mut asks: Vec<Ask> = Vec::new();
    asks.push(ask);
    let c = Call { stage, asks };
    assert(c@ =~= asking(stage@, ask@));
    c
}

/// A call that goes on waiting.
fn call_waiting(stage: Stage) -> (c: Call)
    ensures
        c@ == (CallView { stage: stage@, asks: Seq::empty() }),
{
    let c = Call { stage, asks: Vec::new() };
    assert(c@ =~= CallView { stage: stage@, asks: Seq::empty() });
    c
}

/// The request that gives a held lock back.
fn ask_back(part: &HeldLock) -> (a: Ask)
    ensures
        a@ == give_back(part@),
{
    Ask::Release { lock: Some(part.lock.clone()), holder: part.holder.clone() }
}

/// The requests that withdraw from slots.
fn ask_cancellations(slots: Vec<Slot>) -> (asks: Vec<Ask>)
    ensures
        ask_views(asks@) == cancellations(slot_views(slots@)),
{
    let ghost all = cancellations(slot_views(slots@));
    let mut asks: Vec<Ask> = Vec::new();
    assert(ask_views(asks@) =~= all.take(0));
    for s in it: slots
        invariant
            it.seq() == slots@,
            all == cancellations(slot_views(slots@)),
            ask_views(asks@) == all.take(it.index() as int),
    {
        let ghost i = it.index() as int;
        let ghost was = asks@;
        proof {
            assert(slot_views(slots@)[i] == s@);
            assert(all[i] == AskView::CancelAcquire { lock: s.lock@, waiter: s.waiter });
        }
        asks.push(Ask::CancelAcquire { lock: s.lock, waiter: s.waiter });
        proof {
            assert(ask_views(asks@) =~= ask_views(was).push(all[i]));
            assert(ask_views(asks@) =~= all.take(i + 1));
        }
    }
    assert(all.take(all.len() as int) =~= all);
    asks
}

/// The answer to a request for one lock, once it is there.
fn as_lock_reply(heard: Heard) -> (r: Option<Result<ClientAcquire, ClientError>>)
    ensures
        match r {
            Some(x) => lock_reply(heard@) == Some(result_view(x)),
            None => lock_reply(heard@) is None,
        },
{
    match heard {
        Heard::Acquired(_, r) => Some(r),
        Heard::Stopped => Some(Err(ClientError::Stopped)),
        Heard::Released(_) => None,
    }
}

/// The answer to a release, once it is there.
fn as_release_reply(heard: Heard) -> (r: Option<Result<ClientRelease, ClientError>>)
    ensures
        match r {
            Some(x) => release_reply(heard@) == Some(result_view(x)),
            None => release_reply(heard@) is None,
        },
{
    match heard {
        Heard::Released(r) => Some(r),
        Heard::Stopped => Some(Err(ClientError::Stopped)),
        Heard::Acquired(_, _) => None,
    }
}

/// Give back what is left, first to last, then fail.
fn call_undo(error: ClientError, left: Vec<HeldLock>) -> (c: Call)
    ensures
        c@ == undo(error, held_views(left@)),
{
    if left.len() == 0 {
        call_over(Err(error))
    } else {
        assert(held_views(left@)[0] == left@[0]@);
        let ask = ask_back(&left[0]);
        call_asking(Stage::WriteUndo { error, left }, ask)
    }
}

impl Call {
    /// What came out, once the call is over.
    pub fn outcome(&self) -> (r: Option<&Result<Answer, ClientError>>)
        ensures
            match r {
                Some(x) => self@.stage == StageView::Done(result_view(*x)),
                None => !(self@.stage is Done),
            },
    {
        match &self.stage {
            Stage::Done(r) => Some(r),
            _ => None,
        }
    }

    /// Take the requests that are to be sent to the coordinator now.
    pub fn take_asks(&mut self) -> (asks: Vec<Ask>)
        ensures
            ask_views(asks@) == old(self)@.asks,
            final(self)@ == (CallView { asks: Seq::empty(), ..old(self)@ }),
    {
        let mut asks: Vec<Ask> = Vec::new();
        std::mem::swap(&mut asks, &mut self.asks);
        assert(self@ =~= CallView { asks: Seq::empty(), ..old(self)@ });
        asks
    }
}

/// Turns what clients ask for into requests to the coordinator.
///
/// Each method starts a [`Call`]: send its requests, feed what the coordinator
/// says into [`LockClient::hear`], and so on until the call has an outcome.
pub struct LockClient {
    next_waiter: u64,
    next_rw_holder: u64,
    bundles: LockMap<RwBundle>,
}

impl View for LockClient {
    type V = LockClientView;

    closed spec fn view(&self) -> LockClientView {
        LockClientView {
            next_waiter: self.next_waiter,
            next_rw_holder: self.next_rw_holder,
            bundles: self.bundles@,
        }
    }
}

impl LockClient {
    /// The table and the state are in order.
    pub closed spec fn wf(&self) -> bool {
        self.bundles.wf() && self@.wf()
    }

    /// A well-formed client has a well-formed state.
    pub proof fn lemma_wf_view(&self)
        requires
            self.wf(),
        ensures
            self@.wf(),
    {
    }

    /// A client that has asked for nothing.
    pub fn new() -> (c: LockClient)
        ensures
            c.wf(),
            c@ == LockClientView::fresh(),
    {
        let c = LockClient { next_waiter: 1, next_rw_holder: 1, bundles: LockMap::new() };
        assert(c@ =~= LockClientView::fresh());
        c
    }

    /// Ask for one lock and wait.
    fn ask_lock(&mut self, lock: LockId, stage: Stage) -> (call: Call)
        requires
            old(self).wf(),
        ensures
            final(self).wf(),
            (final(self)@, call@) == old(self)@.ask_lock(lock@, stage@),
    {
        let waiter = self.next_waiter;
        self.next_waiter = waiter.wrapping_add(1);
        proof {
            assert(self@ =~= old(self)@.skip_waiters(1));
        }
        let resource = ClientResource::Lock { lock: lock.clone() };
        call_asking(stage, Ask::Acquire { lock, waiter, resource })
    }

    /// Ask for all slots of a resource.
    fn ask_slots(&mut self, kind: SlotKind, name: &str, limit: u32) -> (r: (Vec<Slot>, Vec<Ask>))
        requires
            old(self).wf(),
        ensures
            final(self).wf(),
            final(self)@ == old(self)@.skip_waiters(limit as nat),
            slot_views(r.0@) == old(self)@.slots(kind, name@, limit),
            ask_views(r.1@) == old(self)@.slot_asks(kind, name@, limit),
    {
        let ghost slots = self@.slots(kind, name@, limit);
        let ghost all = self@.slot_asks(kind, name@, limit);
        let mut pending: Vec<Slot> = Vec::new();
        let mut asks: Vec<Ask> = Vec::new();
        let mut permit: u32 = 0;
        proof {
            assert(slot_views(pending@) =~= slots.take(0));
            assert(ask_views(asks@) =~= all.take(0));
            assert(self@ =~= old(self)@.skip_waiters(0));
        }
        while permit < limit
            invariant
                old(self).wf(),
                self.wf(),
                self@ == old(self)@.skip_waiters(permit as nat),
                slots == old(self)@.slots(kind, name@, limit),
                all == old(self)@.slot_asks(kind, name@, limit),
                permit <= limit,
                slot_views(pending@) == slots.take(permit as int),
                ask_views(asks@) == all.take(permit as int),
            decreases limit - permit,
        {
            let ghost was = (pending@, asks@);
            let lock = slot_lock_name(kind, name, limit, permit);
            let waiter = self.next_waiter;
            self.next_waiter = waiter.wrapping_add(1);
            let resource = make_slot_resource(kind, name, limit, permit);
            pending.push(Slot { waiter, permit, lock: lock.clone() });
            asks.push(Ask::Acquire { lock, waiter, resource });
            proof {
                assert(self@ =~= old(self)@.skip_waiters((permit + 1) as nat));
                assert(slot_views(pending@) =~= slot_views(was.0).push(slots[permit as int]));
                assert(ask_views(asks@) =~= ask_views(was.1).push(all[permit as int]));
                assert(slot_views(pending@) =~= slots.take(permit + 1));
                assert(ask_views(asks@) =~= all.take(permit + 1));
            }
            permit += 1;
        }
        proof {
            assert(slots.take(limit as int) =~= slots);
            assert(all.take(limit as int) =~= all);
        }
        (pending, asks)
    }

    /// Queue for a lock until this node holds it.
    pub fn acquire(&mut self, lock: LockId) -> (call: Call)
        requires
            old(self).wf(),
        ensures
            final(self).wf(),
            stage_wf(call@.stage),
            (final(self)@, call@) == old(self)@.acquire(lock@),
    {
        if lock.as_str().is_empty() {
            return call_over(Err(ClientError::EmptyLock));
        }
        self.ask_lock(lock, Stage::Lock)
    }

    /// Queue for one permit from a fixed-size semaphore.
    ///
    /// A semaphore is `limit` independent exclusive permit locks. Clients that
    /// use the same name and limit contend for the same bounded resource;
    /// another limit makes another semaphore.
    pub fn acquire_semaphore(&mut self, name: String, limit: u32) -> (call: Call)
        requires
            old(self).wf(),
        ensures
            final(self).wf(),
            stage_wf(call@.stage),
            (final(self)@, call@) == old(self)@.acquire_semaphore(name@, limit),
    {
        match validate_bounded_resource(name.as_str(), limit) {
            Err(e) => call_over(Err(e)),
            Ok(()) => {
                let (pending, asks) = self.ask_slots(SlotKind::Permit, name.as_str(), limit);
                Call { stage: Stage::Semaphore { name, limit, pending }, asks }
            },
        }
    }

    /// Queue for the shared side of an RW lock.
    ///
    /// `limit` is the greatest number of readers at one time. Readers and
    /// writers contend if they use the same name and limit.
    pub fn acquire_read(&mut self, name: String, limit: u32) -> (call: Call)
        requires
            old(self).wf(),
        ensures
            final(self).wf(),
            stage_wf(call@.stage),
            (final(self)@, call@) == old(self)@.acquire_read(name@, limit),
    {
        match validate_bounded_resource(name.as_str(), limit) {
            Err(e) => call_over(Err(e)),
            Ok(()) => {
                let gate = rw_gate_lock_name(name.as_str(), limit);
                self.ask_lock(gate, Stage::ReadGate { name, limit })
            },
        }
    }

    /// Queue for the exclusive side of an RW lock.
    ///
    /// A writer holds the admission gate and every reader slot, so no reader is active
    /// while it does. Once it has the admission gate, later readers queue behind it
    /// instead of taking the slots that become free.
    pub fn acquire_write(&mut self, name: String, limit: u32) -> (call: Call)
        requires
            old(self).wf(),
        ensures
            final(self).wf(),
            stage_wf(call@.stage),
            (final(self)@, call@) == old(self)@.acquire_write(name@, limit),
    {
        match validate_bounded_resource(name.as_str(), limit) {
            Err(e) => call_over(Err(e)),
            Ok(()) => {
                let gate = rw_gate_lock_name(name.as_str(), limit);
                self.ask_lock(gate, Stage::WriteGate { name, limit })
            },
        }
    }

    /// Give the bundle at position `i` back, part by part.
    fn release_rw_bundle(&mut self, i: usize) -> (call: Call)
        requires
            old(self).wf(),
            i < old(self)@.bundles.keys.len(),
        ensures
            final(self).wf(),
            stage_wf(call@.stage),
            (final(self)@, call@) == old(self)@.give_bundle_back(
                old(self)@.bundles.keys[i as int],
            ),
    {
        let ghost token = self@.bundles.keys[i as int];
        proof {
            assert(self@.bundles.map.contains_key(token)) by {
                assert(self@.bundles.keys.contains(token));
            }
            self@.lemma_give_back_wf(token);
        }
        let bundle = self.bundles.remove_at(i);
        assert(self@ =~= old(self)@.give_bundle_back(token).0);
        if bundle.parts.len() == 0 {
            return call_over(Ok(Answer::Release(bundle.release())));
        }
        assert(held_views(bundle.parts@)[0] == bundle.parts@[0]@);
        let ask = ask_back(&bundle.parts[0]);
        call_asking(Stage::ReleaseBundle { bundle, next: 0, first_error: None }, ask)
    }

    /// Release by the holder token that the acquisition gave.
    pub fn release(&mut self, holder: String) -> (call: Call)
        requires
            old(self).wf(),
        ensures
            final(self).wf(),
            stage_wf(call@.stage),
            (final(self)@, call@) == old(self)@.release(holder@),
    {
        match self.bundles.find(holder.as_str()) {
            Some(i) => self.release_rw_bundle(i),
            None => call_asking(Stage::Release, Ask::Release { lock: None, holder }),
        }
    }

    /// Release a lock by holder token, which must belong to the lock of that
    /// name.
    pub fn release_lock(&mut self, lock: LockId, holder: String) -> (call: Call)
        requires
            old(self).wf(),
        ensures
            final(self).wf(),
            stage_wf(call@.stage),
            (final(self)@, call@) == old(self)@.release_lock(lock@, holder@),
    {
        call_asking(Stage::Release, Ask::Release { lock: Some(lock), holder })
    }

    /// Release an RW lock by holder token, which must belong to the RW lock of
    /// that name.
    pub fn release_rw_lock(&mut self, name: String, holder: String) -> (call: Call)
        requires
            old(self).wf(),
        ensures
            final(self).wf(),
            stage_wf(call@.stage),
            (final(self)@, call@) == old(self)@.release_rw_lock(name@, holder@),
    {
        match self.bundles.find(holder.as_str()) {
            None => call_over(Err(ClientError::NotHeld)),
            Some(i) => {
                if !str_eq(self.bundles.value(i).name.as_str(), name.as_str()) {
                    return call_over(Err(ClientError::HolderMismatch));
                }
                self.release_rw_bundle(i)
            },
        }
    }

    /// Keep a bundle under the next token.
    fn register_rw_bundle(&mut self, bundle: RwBundle) -> (holder: String)
        requires
            old(self).wf(),
            bundle@.wf(),
        ensures
            final(self).wf(),
            final(self)@ == old(self)@.registered(bundle@),
            holder@ == rw_token(old(self)@.next_rw_holder as nat),
    {
        proof {
            self@.lemma_registered_wf(bundle@);
        }
        let n = self.next_rw_holder;
        self.next_rw_holder = n.wrapping_add(1);
        let mut v = chars_of("rw");
        push_chars(&mut v, &hex_number_chars(n, 16));
        let holder = string_of(&v);
        self.bundles.set(holder.clone(), bundle);
        assert(self@ =~= old(self)@.registered(bundle@));
        holder
    }

    /// The writer has one more slot; with all of them, its side is held.
    fn write_step(
        &mut self,
        name: String,
        limit: u32,
        gate: HeldLock,
        fence: Fence,
        parts: Vec<HeldLock>,
    ) -> (call: Call)
        requires
            old(self).wf(),
            bounded_error(name@, limit) is None,
            gate@.lock == gate_lock(name@, limit),
            parts@.len() <= limit,
            forall|i: int|
                0 <= i < parts@.len() ==> (#[trigger] held_views(parts@)[i]).lock == slot_lock(
                    SlotKind::Reader,
                    name@,
                    limit,
                    i as u32,
                ),
        ensures
            final(self).wf(),
            (final(self)@, call@) == old(self)@.write_step(
                name@,
                limit,
                gate@,
                fence,
                held_views(parts@),
            ),
    {
        proof {
            self@.lemma_write_step_wf(name@, limit, gate@, fence, held_views(parts@));
        }
        if parts.len() < limit as usize {
            let lock = rw_slot_lock_name(name.as_str(), limit, parts.len() as u32);
            self.ask_lock(lock, Stage::WriteSlot { name, limit, gate, fence, parts })
        } else {
            let mut parts = parts;
            let ghost before = held_views(parts@);
            parts.push(gate);
            proof {
                let all = held_views(parts@);
                assert(all =~= before.push(gate@));
                assert forall|i: int| 0 <= i < limit implies (#[trigger] all[i]).lock == slot_lock(
                    SlotKind::Reader,
                    name@,
                    limit,
                    i as u32,
                ) by {
                    assert(all[i] == before[i]);
                }
            }
            let holder = self.register_rw_bundle(
                RwBundle { name: name.clone(), limit, mode: RwMode::Write, permit: None, parts },
            );
            call_over(
                Ok(
                    Answer::Rw(
                        ClientRwAcquire {
                            rwlock: name,
                            mode: RwMode::Write,
                            limit,
                            permit: None,
                            fence,
                            holder,
                        },
                    ),
                ),
            )
        }
    }

    /// A reader has the admission gate or not.
    fn hear_read_gate(&mut self, name: String, limit: u32, heard: Heard) -> (next: Call)
        requires
            old(self).wf(),
            bounded_error(name@, limit) is None,
        ensures
            final(self).wf(),
            (final(self)@, next@) == old(self)@.hear(
                StageView::ReadGate { name: name@, limit },
                heard@,
            ),
    {
        match as_lock_reply(heard) {
            Some(Ok(a)) => {
                let gate = HeldLock {
                    lock: rw_gate_lock_name(name.as_str(), limit),
                    holder: a.holder,
                };
                let (pending, asks) = self.ask_slots(SlotKind::Reader, name.as_str(), limit);
                Call { stage: Stage::ReadSlot { name, limit, gate, pending }, asks }
            },
            Some(Err(e)) => call_over(Err(e)),
            None => call_waiting(Stage::ReadGate { name, limit }),
        }
    }

    /// A reader has released the admission gate or not.
    fn hear_read_release(
        &mut self,
        name: String,
        limit: u32,
        slot: Result<WonSlot, ClientError>,
        heard: Heard,
    ) -> (next: Call)
        requires
            old(self).wf(),
            stage_wf(StageView::ReadRelease { name: name@, limit, slot: result_view(slot) }),
        ensures
            final(self).wf(),
            (final(self)@, next@) == old(self)@.hear(
                StageView::ReadRelease { name: name@, limit, slot: result_view(slot) },
                heard@,
            ),
    {
        match as_release_reply(heard) {
            Some(r) => match slot {
                Ok(won) => match r {
                    Ok(_) => self.read_done(name, limit, won),
                    Err(e) => {
                        let ask = ask_back(&won.part);
                        call_asking(Stage::ReadUndo { error: e }, ask)
                    },
                },
                Err(e) => call_over(Err(e)),
            },
            None => call_waiting(Stage::ReadRelease { name, limit, slot }),
        }
    }

    /// A writer has the admission gate or not.
    fn hear_write_gate(&mut self, name: String, limit: u32, heard: Heard) -> (next: Call)
        requires
            old(self).wf(),
            bounded_error(name@, limit) is None,
        ensures
            final(self).wf(),
            (final(self)@, next@) == old(self)@.hear(
                StageView::WriteGate { name: name@, limit },
                heard@,
            ),
    {
        match as_lock_reply(heard) {
            Some(Ok(a)) => {
                let gate = HeldLock {
                    lock: rw_gate_lock_name(name.as_str(), limit),
                    holder: a.holder,
                };
                let parts: Vec<HeldLock> = Vec::new();
                assert(held_views(parts@) =~= Seq::empty());
                self.write_step(name, limit, gate, a.fence, parts)
            },
            Some(Err(e)) => call_over(Err(e)),
            None => call_waiting(Stage::WriteGate { name, limit }),
        }
    }

    /// A writer has the next slot or not.
    fn hear_write_slot(
        &mut self,
        name: String,
        limit: u32,
        gate: HeldLock,
        fence: Fence,
        parts: Vec<HeldLock>,
        heard: Heard,
    ) -> (next: Call)
        requires
            old(self).wf(),
            stage_wf(
                StageView::WriteSlot {
                    name: name@,
                    limit,
                    gate: gate@,
                    fence,
                    parts: held_views(parts@),
                },
            ),
        ensures
            final(self).wf(),
            (final(self)@, next@) == old(self)@.hear(
                StageView::WriteSlot {
                    name: name@,
                    limit,
                    gate: gate@,
                    fence,
                    parts: held_views(parts@),
                },
                heard@,
            ),
    {
        match as_lock_reply(heard) {
            Some(Ok(a)) => {
                let mut parts = parts;
                let ghost before = held_views(parts@);
                let lock = rw_slot_lock_name(name.as_str(), limit, parts.len() as u32);
                let best = if a.fence > fence {
                    a.fence
                } else {
                    fence
                };
                let part = HeldLock { lock, holder: a.holder };
                let ghost view = part@;
                parts.push(part);
                proof {
                    let all = held_views(parts@);
                    assert(all =~= before.push(view));
                    assert forall|i: int| 0 <= i < all.len() implies (#[trigger] all[i]).lock
                        == slot_lock(SlotKind::Reader, name@, limit, i as u32) by {
                        if i < before.len() {
                            assert(all[i] == before[i]);
                        }
                    }
                }
                self.write_step(name, limit, gate, best, parts)
            },
            Some(Err(e)) => {
                let left = turned_round(parts, gate);
                call_undo(e, left)
            },
            None => call_waiting(Stage::WriteSlot { name, limit, gate, fence, parts }),
        }
    }

    /// Go on with a call after something has been heard.
    pub fn hear(&mut self, call: Call, heard: Heard) -> (next: Call)
        requires
            old(self).wf(),
            stage_wf(call@.stage),
        ensures
            final(self).wf(),
            stage_wf(next@.stage),
            (final(self)@, next@) == old(self)@.hear(call@.stage, heard@),
    {
        proof {
            self@.lemma_hear_wf(call@.stage, heard@);
        }
        match call.stage {
            Stage::Done(r) => call_over(r),
            Stage::Lock => hear_lock(heard),
            Stage::Semaphore { name, limit, pending } => hear_permit(
                name,
                limit,
                run_race(pending, heard),
                Ghost(slot_views(pending@)),
            ),
            Stage::ReadGate { name, limit } => self.hear_read_gate(name, limit, heard),
            Stage::ReadSlot { name, limit, gate, pending } => hear_reader(
                name,
                limit,
                gate,
                run_race(pending, heard),
                Ghost(slot_views(pending@)),
            ),
            Stage::ReadRelease { name, limit, slot } => self.hear_read_release(
                name,
                limit,
                slot,
                heard,
            ),
            Stage::ReadUndo { error } => match as_release_reply(heard) {
                Some(_) => call_over(Err(error)),
                None => call_waiting(Stage::ReadUndo { error }),
            },
            Stage::WriteGate { name, limit } => self.hear_write_gate(name, limit, heard),
            Stage::WriteSlot { name, limit, gate, fence, parts } => self.hear_write_slot(
                name,
                limit,
                gate,
                fence,
                parts,
                heard,
            ),
            Stage::WriteUndo { error, left } => hear_undo(error, left, heard),
            Stage::Release => hear_release(heard),
            Stage::ReleaseBundle { bundle, next, first_error } => hear_bundle(
                bundle,
                next,
                first_error,
                heard,
            ),
        }
    }

    /// The reader's side is held.
    fn read_done(&mut self, name: String, limit: u32, won: WonSlot) -> (call: Call)
        requires
            old(self).wf(),
            bounded_error(name@, limit) is None,
            won.permit < limit,
            won@.part.lock == slot_lock(SlotKind::Reader, name@, limit, won.permit),
        ensures
            final(self).wf(),
            (final(self)@, call@) == old(self)@.read_done(name@, limit, won@),
    {
        let permit = won.permit;
        let fence = won.fence;
        let ghost part = won@.part;
        let mut parts: Vec<HeldLock> = Vec::new();
        parts.push(won.part);
        assert(held_views(parts@) =~= seq![part]);
        let holder = self.register_rw_bundle(
            RwBundle {
                name: name.clone(),
                limit,
                mode: RwMode::Read,
                permit: Some(permit),
                parts,
            },
        );
        call_over(
            Ok(
                Answer::Rw(
                    ClientRwAcquire {
                        rwlock: name,
                        mode: RwMode::Read,
                        limit,
                        permit: Some(permit),
                        fence,
                        holder,
                    },
                ),
            ),
        )
    }
}

/// The lock is held or not.
fn hear_lock(heard: Heard) -> (next: Call)
    ensures
        forall|c: LockClientView| (c, next@) == #[trigger] c.hear(StageView::Lock, heard@),
{
    match as_lock_reply(heard) {
        Some(Ok(a)) => call_over(Ok(Answer::Lock(a))),
        Some(Err(e)) => call_over(Err(e)),
        None => call_waiting(Stage::Lock),
    }
}

/// The release has succeeded or not.
fn hear_release(heard: Heard) -> (next: Call)
    ensures
        forall|c: LockClientView| (c, next@) == #[trigger] c.hear(StageView::Release, heard@),
{
    match as_release_reply(heard) {
        Some(Ok(r)) => call_over(Ok(Answer::Release(r))),
        Some(Err(e)) => call_over(Err(e)),
        None => call_waiting(Stage::Release),
    }
}

/// One more lock of a writer that failed has been given back.
fn hear_undo(error: ClientError, left: Vec<HeldLock>, heard: Heard) -> (next: Call)
    requires
        left@.len() > 0,
    ensures
        forall|c: LockClientView|
            (c, next@) == #[trigger] c.hear(
                StageView::WriteUndo { error, left: held_views(left@) },
                heard@,
            ),
{
    match as_release_reply(heard) {
        Some(_) => {
            let mut left = left;
            let ghost before = held_views(left@);
            let _ = left.remove(0);
            assert(held_views(left@) =~= before.skip(1));
            call_undo(error, left)
        },
        None => call_waiting(Stage::WriteUndo { error, left }),
    }
}

/// One more part of a bundle has been released or not.
fn hear_bundle(
    bundle: RwBundle,
    next: usize,
    first_error: Option<ClientError>,
    heard: Heard,
) -> (call: Call)
    requires
        next < bundle.parts@.len(),
    ensures
        forall|c: LockClientView|
            (c, call@) == #[trigger] c.hear(
                StageView::ReleaseBundle { bundle: bundle@, next: next as nat, first_error },
                heard@,
            ),
{
    match as_release_reply(heard) {
        Some(r) => {
            let error: Option<ClientError> = match first_error {
                Some(e) => Some(e),
                None => match r {
                    Ok(_) => None,
                    Err(e) => Some(e),
                },
            };
            if next < bundle.parts.len() - 1 {
                assert(held_views(bundle.parts@)[next + 1] == bundle.parts@[next + 1]@);
                let ask = ask_back(&bundle.parts[next + 1]);
                call_asking(
                    Stage::ReleaseBundle { bundle, next: next + 1, first_error: error },
                    ask,
                )
            } else {
                match error {
                    Some(e) => call_over(Err(e)),
                    None => call_over(Ok(Answer::Release(bundle.release()))),
                }
            }
        },
        None => call_waiting(Stage::ReleaseBundle { bundle, next, first_error }),
    }
}

/// What somebody who waits for a permit does next.
fn hear_permit(name: String, limit: u32, r: Race, Ghost(pending): Ghost<Seq<SlotView>>) -> (call:
    Call)
    requires
        r matches Race::Stray(_, same) ==> slot_views(same@) == pending,
    ensures
        call@ == hear_semaphore(name@, limit, r@, pending),
{
    match r {
        Race::Won { slot, rest, acquired } => {
            let answer = ClientSemaphoreAcquire {
                semaphore: name,
                limit,
                permit: slot.permit,
                fence: acquired.fence,
                holder: acquired.holder,
            };
            Call {
                stage: Stage::Done(Ok(Answer::Semaphore(answer))),
                asks: ask_cancellations(rest),
            }
        },
        Race::Lost(e) => call_over(Err(e)),
        Race::Stray(a, pending) => call_asking(
            Stage::Semaphore { name, limit, pending },
            Ask::Release { lock: None, holder: a.holder },
        ),
        Race::Waiting(rest) => call_waiting(Stage::Semaphore { name, limit, pending: rest }),
    }
}

/// What a reader that waits for a slot does next.
fn hear_reader(
    name: String,
    limit: u32,
    gate: HeldLock,
    r: Race,
    Ghost(pending): Ghost<Seq<SlotView>>,
) -> (call: Call)
    requires
        r matches Race::Stray(_, same) ==> slot_views(same@) == pending,
    ensures
        call@ == hear_read_slot(name@, limit, gate@, r@, pending),
{
    match r {
        Race::Won { slot, rest, acquired } => {
            let mut asks = ask_cancellations(rest);
            let ghost before = ask_views(asks@);
            asks.push(ask_back(&gate));
            assert(ask_views(asks@) =~= before.push(give_back(gate@)));
            let won = WonSlot {
                permit: slot.permit,
                part: HeldLock { lock: slot.lock, holder: acquired.holder },
                fence: acquired.fence,
            };
            Call { stage: Stage::ReadRelease { name, limit, slot: Ok(won) }, asks }
        },
        Race::Lost(e) => {
            let ask = ask_back(&gate);
            call_asking(Stage::ReadRelease { name, limit, slot: Err(e) }, ask)
        },
        Race::Stray(a, pending) => call_asking(
            Stage::ReadSlot { name, limit, gate, pending },
            Ask::Release { lock: Some(a.lock), holder: a.holder },
        ),
        Race::Waiting(rest) => call_waiting(
            Stage::ReadSlot { name, limit, gate, pending: rest },
        ),
    }
}

/// The parts from the last to the first, then the admission gate.
fn turned_round(parts: Vec<HeldLock>, gate: HeldLock) -> (left: Vec<HeldLock>)
    ensures
        held_views(left@) == held_views(parts@).reverse().push(gate@),
{
    let ghost all = held_views(parts@);
    let mut parts = parts;
    let mut left: Vec<HeldLock> = Vec::new();
    assert(held_views(left@) =~= all.reverse().take(0));
    while parts.len() > 0
        invariant
            parts@.len() <= all.len(),
            held_views(parts@) == all.take(parts@.len() as int),
            held_views(left@) == all.reverse().take(all.len() - parts@.len()),
        decreases parts@.len(),
    {
        let ghost n = parts@.len() as int;
        let ghost was = (held_views(parts@), held_views(left@));
        match parts.pop() {
            Some(part) => {
                proof {
                    assert(was.0[n - 1] == part@);
                    assert(all.reverse()[all.len() - n] == all[n - 1]);
                    assert(held_views(parts@) =~= all.take(n - 1));
                }
                left.push(part);
                proof {
                    assert(held_views(left@) =~= was.1.push(part@));
                    assert(held_views(left@) =~= all.reverse().take(all.len() - n + 1));
                }
            },
            None => {},
        }
    }
    assert(all.reverse().take(all.len() as int) =~= all.reverse());
    let ghost before = held_views(left@);
    left.push(gate);
    assert(held_views(left@) =~= before.push(gate@));
    left
}

} // verus!
