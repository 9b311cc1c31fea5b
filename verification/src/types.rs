//! The vocabulary of the protocol: identifiers, request ids and messages.
use vstd::prelude::*;

verus! {

/// Identifier of a node in the cluster.
pub type NodeId = u32;

/// Name of a lock (the resource under contention).
pub type LockId = String;

/// A Lamport logical-clock value.
pub type Lamport = u64;

/// A fence token: strictly increases across successive holders of one lock.
pub type Fence = u64;

/// A point in physical time, in arbitrary monotonic units (e.g. milliseconds).
/// The protocol never reads a clock itself: callers pass `now` in. Time is used
/// only for lease expiry on the failure path; the happy path is clock-free.
pub type Instant = u64;

/// How long a granted vote stays valid without a renewal. If a holder stops
/// renewing (crash or partition) its votes are reclaimed after this long.
pub const LEASE: Instant = 10_000;

/// How often a requester renews the votes it currently holds. Smaller than
/// [`LEASE`], so a few lost renewals are survivable.
pub const RENEW_INTERVAL: Instant = 2_000;

/// A globally unique, totally ordered request identifier.
///
/// Ordering is `(ts, node)` lexicographically: a smaller Lamport timestamp wins
/// and the node id breaks ties.
#[derive(Clone, Copy, PartialEq, Eq, PartialOrd, Ord, Hash, Debug, Structural)]
pub struct RequestId {
    pub ts: Lamport,
    pub node: NodeId,
}

impl RequestId {
    /// The total order on request ids, smaller first.
    pub open spec fn precedes(self, other: RequestId) -> bool {
        self.ts < other.ts || (self.ts == other.ts && self.node < other.node)
    }

    /// Whether this request comes strictly before `other`.
    pub fn before(self, other: RequestId) -> (b: bool)
        ensures
            b == self.precedes(other),
    {
        self.ts < other.ts || (self.ts == other.ts && self.node < other.node)
    }
}

/// The eight kinds of protocol message.
#[derive(Clone, Copy, PartialEq, Eq, Debug, Structural)]
pub enum MessageKind {
    Request,
    Grant,
    Inquire,
    Yield,
    Confirm,
    Release,
    Renew,
    Revoked,
}

impl MessageKind {
    /// Whether messages of this kind carry a fence token.
    pub open spec fn has_fence(self) -> bool {
        self is Grant || self is Confirm || self is Release
    }

    /// Whether messages of this kind go from a requester to an arbiter.
    pub open spec fn to_arbiter(self) -> bool {
        !(self is Grant || self is Inquire || self is Revoked)
    }
}

/// A protocol message. Every message names the lock it concerns; the sender is
/// supplied out-of-band to [`crate::Node::handle`]. Requester-to-arbiter
/// messages must come from `req.node`; arbiter-to-requester messages must be
/// addressed to the local node's request id.
#[derive(Clone, Debug, PartialEq, Eq)]
pub enum Message {
    /// Requester to arbiters: "please vote for me."
    Request { lock: LockId, req: RequestId },
    /// Arbiter to requester: "you have my vote." Carries the arbiter's highest
    /// fence token so the requester can compute a strictly greater one.
    Grant { lock: LockId, req: RequestId, fence: Fence },
    /// Arbiter to current votee: "someone older wants this; will you yield?"
    Inquire { lock: LockId, req: RequestId },
    /// Requester to arbiter: "taking my vote back, re-grant it." Sent only by a
    /// requester that has not yet locked.
    Yield { lock: LockId, req: RequestId },
    /// Requester to quorum: records the chosen fence token at the quorum so it
    /// survives the holder crashing before [`Message::Release`].
    Confirm { lock: LockId, req: RequestId, fence: Fence },
    /// Requester to arbiters: "done, free your vote." Carries the token so the
    /// arbiter bumps its fence before granting the next holder.
    Release { lock: LockId, req: RequestId, fence: Fence },
    /// Requester to arbiters: "I'm still alive, extend my vote's lease."
    Renew { lock: LockId, req: RequestId },
    /// Arbiter to requester: "your lease lapsed and I've given the vote away."
    Revoked { lock: LockId, req: RequestId },
}

/// The mathematical content of a [`Message`]; `fence` is zero for the kinds
/// that carry none.
#[verifier::ext_equal]
pub struct MessageView {
    pub kind: MessageKind,
    pub lock: Seq<char>,
    pub req: RequestId,
    pub fence: Fence,
}

impl View for Message {
    type V = MessageView;

    open spec fn view(&self) -> MessageView {
        match *self {
            Message::Request { lock, req } => plain_message(MessageKind::Request, lock@, req),
            Message::Grant { lock, req, fence } => fenced_message(
                MessageKind::Grant,
                lock@,
                req,
                fence,
            ),
            Message::Inquire { lock, req } => plain_message(MessageKind::Inquire, lock@, req),
            Message::Yield { lock, req } => plain_message(MessageKind::Yield, lock@, req),
            Message::Confirm { lock, req, fence } => fenced_message(
                MessageKind::Confirm,
                lock@,
                req,
                fence,
            ),
            Message::Release { lock, req, fence } => fenced_message(
                MessageKind::Release,
                lock@,
                req,
                fence,
            ),
            Message::Renew { lock, req } => plain_message(MessageKind::Renew, lock@, req),
            Message::Revoked { lock, req } => plain_message(MessageKind::Revoked, lock@, req),
        }
    }
}

/// A message of a kind that carries no fence token.
pub open spec fn plain_message(kind: MessageKind, lock: Seq<char>, req: RequestId) -> MessageView {
    MessageView { kind, lock, req, fence: 0 }
}

/// A message of a kind that carries a fence token.
pub open spec fn fenced_message(
    kind: MessageKind,
    lock: Seq<char>,
    req: RequestId,
    fence: Fence,
) -> MessageView {
    MessageView { kind, lock, req, fence }
}

impl MessageView {
    /// Whether some [`Message`] has this content: kinds without a fence token
    /// have the token zero.
    pub open spec fn well_formed(self) -> bool {
        self.kind.has_fence() || self.fence == 0
    }
}

impl Message {
    /// The kind of this message.
    pub fn kind(&self) -> (k: MessageKind)
        ensures
            k == self@.kind,
    {
        match self {
            Message::Request { .. } => MessageKind::Request,
            Message::Grant { .. } => MessageKind::Grant,
            Message::Inquire { .. } => MessageKind::Inquire,
            Message::Yield { .. } => MessageKind::Yield,
            Message::Confirm { .. } => MessageKind::Confirm,
            Message::Release { .. } => MessageKind::Release,
            Message::Renew { .. } => MessageKind::Renew,
            Message::Revoked { .. } => MessageKind::Revoked,
        }
    }

    /// The request this message concerns.
    pub fn req(&self) -> (r: RequestId)
        ensures
            r == self@.req,
    {
        match self {
            Message::Request { req, .. } => *req,
            Message::Grant { req, .. } => *req,
            Message::Inquire { req, .. } => *req,
            Message::Yield { req, .. } => *req,
            Message::Confirm { req, .. } => *req,
            Message::Release { req, .. } => *req,
            Message::Renew { req, .. } => *req,
            Message::Revoked { req, .. } => *req,
        }
    }

    /// The lock this message concerns.
    pub fn lock(&self) -> (l: &LockId)
        ensures
            l@ == self@.lock,
    {
        match self {
            Message::Request { lock, .. } => lock,
            Message::Grant { lock, .. } => lock,
            Message::Inquire { lock, .. } => lock,
            Message::Yield { lock, .. } => lock,
            Message::Confirm { lock, .. } => lock,
            Message::Release { lock, .. } => lock,
            Message::Renew { lock, .. } => lock,
            Message::Revoked { lock, .. } => lock,
        }
    }

    /// The fence token this message carries, zero if its kind carries none.
    pub fn fence(&self) -> (f: Fence)
        ensures
            f == self@.fence,
    {
        match self {
            Message::Grant { fence, .. } => *fence,
            Message::Confirm { fence, .. } => *fence,
            Message::Release { fence, .. } => *fence,
            _ => 0,
        }
    }

    /// Build a message from its parts; `fence` is dropped for the kinds that
    /// carry none.
    pub fn from_parts(kind: MessageKind, lock: LockId, req: RequestId, fence: Fence) -> (m: Message)
        ensures
            m@.kind == kind,
            m@.lock == lock@,
            m@.req == req,
            m@.fence == if kind.has_fence() { fence } else { 0 },
    {
        match kind {
            MessageKind::Request => Message::Request { lock, req },
            MessageKind::Grant => Message::Grant { lock, req, fence },
            MessageKind::Inquire => Message::Inquire { lock, req },
            MessageKind::Yield => Message::Yield { lock, req },
            MessageKind::Confirm => Message::Confirm { lock, req, fence },
            MessageKind::Release => Message::Release { lock, req, fence },
            MessageKind::Renew => Message::Renew { lock, req },
            MessageKind::Revoked => Message::Revoked { lock, req },
        }
    }
}

/// An outgoing message addressed to a node. The transport (or
/// [`crate::sim`]) decides how and when to deliver it; the protocol makes no
/// timing assumptions.
#[derive(Clone, Debug)]
pub struct Outgoing {
    pub to: NodeId,
    pub msg: Message,
}

/// The mathematical content of an [`Outgoing`].
#[verifier::ext_equal]
pub struct OutgoingView {
    pub to: NodeId,
    pub msg: MessageView,
}

impl View for Outgoing {
    type V = OutgoingView;

    open spec fn view(&self) -> OutgoingView {
        OutgoingView { to: self.to, msg: self.msg@ }
    }
}

/// The contents of a list of outgoing messages, in order.
pub open spec fn outgoing_views(out: Seq<Outgoing>) -> Seq<OutgoingView> {
    out.map_values(|o: Outgoing| o@)
}

} // verus!
