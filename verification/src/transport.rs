//! What runs a [`Node`] over links that keep messages in order.
//!
//! Each ordered pair of nodes talks over one connection, the one that the
//! sender opened, so messages between them arrive in the order in which they
//! were sent. A node opens a connection to every peer and writes there; it
//! reads from the connections that its peers open.
//!
//! [`Driver`] holds the node and decides, event by event, what is to be written
//! to which connection and what is to be kept until a connection is there. The
//! sockets, the clock and the threads are outside: they feed [`Ev`]s in, carry
//! out each [`Send`] and hand on each [`NodeEvent`].
use std::collections::VecDeque;

use vstd::prelude::*;
use vstd::utf8::*;

use crate::cluster::sent_to;
use crate::codec::WireCodec;
use crate::model::{lemma_vote_removed, NodeView};
use crate::node::{acquired_views, contains_node, lock_views, remove_node, Node};
use crate::quorum::{valid_members, QuorumPolicy};
use crate::text::{
    char_views, chars_are, chars_of, decimal, decimal_chars, law_decimal_reads_back,
    lemma_decimal_no_white, lemma_words_one, lemma_words_push, parse_number, parse_unsigned,
    push_chars, push_str, split_words, str_eq, string_of, trim, trim_chars, white, words,
};
use crate::types::{
    outgoing_views, Fence, Instant, LockId, Message, MessageView, NodeId, Outgoing, OutgoingView,
    LEASE, RENEW_INTERVAL,
};

verus! {

// ---- settings ------------------------------------------------------------------------
/// A span of time in milliseconds.
#[derive(Clone, Copy, Debug, PartialEq, Eq, Structural)]
pub struct Duration {
    pub millis: u64,
}

impl Duration {
    /// The span of `millis` milliseconds.
    pub fn from_millis(millis: u64) -> (d: Duration)
        ensures
            d == (Duration { millis }),
    {
        Duration { millis }
    }

    /// How many milliseconds the span has.
    pub fn as_millis(self) -> (millis: u64)
        ensures
            millis == self.millis,
    {
        self.millis
    }

    /// Whether the span is empty.
    pub fn is_zero(self) -> (b: bool)
        ensures
            b == (self.millis == 0),
    {
        self.millis == 0
    }
}

/// Milliseconds to wait before a connection is tried again, unless set.
pub const DEFAULT_CONNECT_RETRY_MS: u64 = 150;

/// Milliseconds between two ticks, unless set.
pub const DEFAULT_TICK_MS: u64 = 500;

/// How many bytes a line from a peer may have, unless set.
pub const DEFAULT_MAX_FRAME_BYTES: usize = 1048576;

/// How a node talks to its peers.
#[derive(Clone, Copy, Debug, PartialEq, Eq, Structural)]
pub struct TransportSettings {
    pub codec: WireCodec,
    /// The wait before a connection is tried again.
    pub connect_retry: Duration,
    /// The time between two ticks.
    pub tick: Duration,
    /// How many bytes a line from a peer may have.
    pub max_line_frame: usize,
    pub quorum_policy: QuorumPolicy,
}

impl TransportSettings {
    /// The settings that hold where nothing else is set.
    pub open spec fn usual() -> TransportSettings {
        TransportSettings {
            codec: WireCodec::Text,
            connect_retry: Duration { millis: DEFAULT_CONNECT_RETRY_MS },
            tick: Duration { millis: DEFAULT_TICK_MS },
            max_line_frame: DEFAULT_MAX_FRAME_BYTES,
            quorum_policy: QuorumPolicy::Majority,
        }
    }
}

impl Default for TransportSettings {
    fn default() -> (s: TransportSettings)
        ensures
            s == TransportSettings::usual(),
    {
        TransportSettings {
            codec: WireCodec::Text,
            connect_retry: Duration::from_millis(DEFAULT_CONNECT_RETRY_MS),
            tick: Duration::from_millis(DEFAULT_TICK_MS),
            max_line_frame: DEFAULT_MAX_FRAME_BYTES,
            quorum_policy: QuorumPolicy::Majority,
        }
    }
}

/// Why a node cannot be started as asked.
#[derive(Clone, Copy, Debug, PartialEq, Eq, Structural)]
pub enum ConfigError {
    NoAddresses,
    IdOutsideAddresses,
    EmptyAddress,
    RepeatedAddress,
    EmptyInterval,
    EmptyFrame,
}

impl ConfigError {
    /// The message for people.
    pub fn message(self) -> (s: &'static str)
        ensures
            s@ == match self {
                ConfigError::NoAddresses => "address list must not be empty"@,
                ConfigError::IdOutsideAddresses => "node id is outside the address list"@,
                ConfigError::EmptyAddress => "addresses must not be empty"@,
                ConfigError::RepeatedAddress => "addresses must be unique"@,
                ConfigError::EmptyInterval => "intervals must not be zero"@,
                ConfigError::EmptyFrame => "frame limit must not be zero"@,
            },
    {
        match self {
            ConfigError::NoAddresses => "address list must not be empty",
            ConfigError::IdOutsideAddresses => "node id is outside the address list",
            ConfigError::EmptyAddress => "addresses must not be empty",
            ConfigError::RepeatedAddress => "addresses must be unique",
            ConfigError::EmptyInterval => "intervals must not be zero",
            ConfigError::EmptyFrame => "frame limit must not be zero",
        }
    }
}

/// Some address holds nothing but whitespace.
pub open spec fn has_blank(addrs: Seq<Seq<char>>) -> bool {
    exists|i: int| 0 <= i < addrs.len() && trim(#[trigger] addrs[i]).len() == 0
}

/// What is wrong with the place of a node among the addresses; the first that
/// applies counts.
pub open spec fn config_error(id: NodeId, addrs: Seq<Seq<char>>) -> Option<ConfigError> {
    if addrs.len() == 0 {
        Some(ConfigError::NoAddresses)
    } else if id >= addrs.len() {
        Some(ConfigError::IdOutsideAddresses)
    } else if has_blank(addrs) {
        Some(ConfigError::EmptyAddress)
    } else if !addrs.no_duplicates() {
        Some(ConfigError::RepeatedAddress)
    } else {
        None
    }
}

/// Whether an earlier entry is the same as entry `i`.
fn repeats(addrs: &Vec<String>, i: usize) -> (b: bool)
    requires
        i < addrs@.len(),
    ensures
        b == exists|j: int| 0 <= j < i && lock_views(addrs@)[j] == lock_views(addrs@)[i as int],
{
    let ghost views = lock_views(addrs@);
    let mut j: usize = 0;
    while j < i
        invariant
            views == lock_views(addrs@),
            j <= i < addrs@.len(),
            forall|k: int| 0 <= k < j ==> #[trigger] views[k] != views[i as int],
        decreases i - j,
    {
        assert(views[j as int] == addrs@[j as int]@);
        if str_eq(addrs[j].as_str(), addrs[i].as_str()) {
            return true;
        }
        j += 1;
    }
    false
}

/// Whether the list names some entry twice.
pub fn has_repeats(addrs: &Vec<String>) -> (b: bool)
    ensures
        b == !lock_views(addrs@).no_duplicates(),
{
    let ghost views = lock_views(addrs@);
    let mut i: usize = 0;
    while i < addrs.len()
        invariant
            views == lock_views(addrs@),
            i <= addrs@.len(),
            forall|j: int, k: int|
                0 <= j < k < i ==> #[trigger] views[j] != #[trigger] views[k],
        decreases addrs@.len() - i,
    {
        if repeats(addrs, i) {
            return true;
        }
        i += 1;
    }
    assert(views.no_duplicates()) by {
        assert forall|j: int, k: int|
            0 <= j < views.len() && 0 <= k < views.len() && j != k implies views[j]
            != views[k] by {
            if j < k {
                assert(views[j] != views[k]);
            } else {
                assert(views[k] != views[j]);
            }
        }
    }
    false
}

/// Check the place of a node among the addresses.
pub fn validate_config(id: NodeId, addrs: &Vec<String>) -> (r: Result<(), ConfigError>)
    ensures
        match r {
            Ok(()) => config_error(id, lock_views(addrs@)) is None,
            Err(e) => config_error(id, lock_views(addrs@)) == Some(e),
        },
{
    let ghost views = lock_views(addrs@);
    if addrs.len() == 0 {
        return Err(ConfigError::NoAddresses);
    }
    if id as usize >= addrs.len() {
        return Err(ConfigError::IdOutsideAddresses);
    }
    let mut i: usize = 0;
    while i < addrs.len()
        invariant
            views == lock_views(addrs@),
            0 < addrs@.len(),
            id < addrs@.len(),
            i <= addrs@.len(),
            forall|j: int| 0 <= j < i ==> trim(#[trigger] views[j]).len() > 0,
        decreases addrs@.len() - i,
    {
        assert(views[i as int] == addrs@[i as int]@);
        if trim_chars(&chars_of(addrs[i].as_str())).len() == 0 {
            return Err(ConfigError::EmptyAddress);
        }
        i += 1;
    }
    if has_repeats(addrs) {
        return Err(ConfigError::RepeatedAddress);
    }
    Ok(())
}

/// Check that time passes between tries and ticks and that a line may hold
/// something.
pub fn validate_settings(settings: &TransportSettings) -> (r: Result<(), ConfigError>)
    ensures
        r == if settings.connect_retry.millis == 0 || settings.tick.millis == 0 {
            Err::<(), ConfigError>(ConfigError::EmptyInterval)
        } else if settings.max_line_frame == 0 {
            Err(ConfigError::EmptyFrame)
        } else {
            Ok(())
        },
{
    if settings.connect_retry.is_zero() || settings.tick.is_zero() {
        return Err(ConfigError::EmptyInterval);
    }
    if settings.max_line_frame == 0 {
        return Err(ConfigError::EmptyFrame);
    }
    Ok(())
}

// ---- lines from peers ----------------------------------------------------------------
/// The first line that a node sends on a connection.
pub open spec fn hello(id: NodeId, codec: WireCodec) -> Seq<char> {
    "HELLO "@ + decimal(id as nat) + " "@ + codec.name()
}

/// Who opened a connection and how it writes, by its first line: `HELLO`, a
/// node's id, and the codec if it is not text.
pub open spec fn greeting(line: Seq<char>) -> Option<(NodeId, WireCodec)> {
    let w = words(line);
    if w.len() < 2 || w.len() > 3 || w[0] != "HELLO"@ {
        None
    } else {
        match parse_number(w[1], u32::MAX as nat) {
            None => None,
            Some(id) => if w.len() == 2 {
                Some((id as NodeId, WireCodec::Text))
            } else {
                match WireCodec::named(w[2]) {
                    Some(codec) => Some((id as NodeId, codec)),
                    None => None,
                }
            },
        }
    }
}

/// The first line that a node sends on a connection.
pub fn hello_line(id: NodeId, codec: WireCodec) -> (s: String)
    ensures
        s@ == hello(id, codec),
{
    let mut v = chars_of("HELLO ");
    push_chars(&mut v, &decimal_chars(id as u64));
    push_str(&mut v, " ");
    push_str(&mut v, codec.as_str());
    string_of(&v)
}

/// Who opened a connection and how it writes, by its first line. `None` where
/// the connection is to be closed: the line is longer than `max` bytes or no
/// greeting.
pub fn read_hello(line: &str, max: usize) -> (r: Option<(NodeId, WireCodec)>)
    ensures
        r == if encode_utf8(line@).len() > max {
            None
        } else {
            greeting(line@)
        },
{
    if line.as_bytes().len() > max {
        return None;
    }
    let w = split_words(&chars_of(line));
    let ghost views = char_views(w@);
    if w.len() < 2 || w.len() > 3 {
        return None;
    }
    assert(views[0] == w@[0]@);
    assert(views[1] == w@[1]@);
    if !chars_are(&w[0], "HELLO") {
        return None;
    }
    match parse_unsigned(&w[1], u32::MAX as u64) {
        None => None,
        Some(id) => {
            if w.len() == 2 {
                Some((id as NodeId, WireCodec::Text))
            } else {
                assert(views[2] == w@[2]@);
                match WireCodec::parse(string_of(&w[2]).as_str()) {
                    Some(codec) => Some((id as NodeId, codec)),
                    None => None,
                }
            }
        },
    }
}

/// **Greetings read back**, with or without the end of the line.
pub proof fn law_greeting_reads_back(id: NodeId, codec: WireCodec)
    ensures
        greeting(hello(id, codec)) == Some((id, codec)),
        greeting(hello(id, codec).push('\n')) == Some((id, codec)),
{
    reveal_strlit("HELLO");
    reveal_strlit("HELLO ");
    reveal_strlit(" ");
    let d = decimal(id as nat);
    let n = codec.name();
    codec.lemma_name();
    lemma_decimal_no_white(id as nat);
    let a = "HELLO"@;
    lemma_words_one(a);
    lemma_words_push(a, d);
    let b = a.push(' ') + d;
    lemma_words_push(b, n);
    let s = hello(id, codec);
    assert(s =~= b.push(' ') + n);
    assert(words(s) =~= seq![a, d, n]);
    law_decimal_reads_back(id as nat, u32::MAX as nat);
    let t = s.push('\n');
    assert(t.drop_last() =~= s);
    assert(white('\n'));
    assert(words(t) =~= words(s));
}

/// What becomes of a line behind the greeting.
#[derive(Debug)]
pub enum Frame {
    /// The line is too long: the connection is to be closed.
    Close,
    /// The line is no message and is passed over.
    Skip,
    /// The line is this message.
    Deliver(Message),
}

/// What becomes of a line of more or fewer than `max` bytes.
pub fn read_frame(codec: WireCodec, line: &str, max: usize) -> (f: Frame)
    ensures
        match f {
            Frame::Close => encode_utf8(line@).len() > max,
            Frame::Skip => encode_utf8(line@).len() <= max && codec.reads(trim(line@)) is None,
            Frame::Deliver(m) => encode_utf8(line@).len() <= max && codec.reads(trim(line@))
                == Some(m@),
        },
{
    if line.as_bytes().len() > max {
        return Frame::Close;
    }
    let trimmed = string_of(&trim_chars(&chars_of(line)));
    match codec.decode_line(trimmed.as_str()) {
        Some(m) => Frame::Deliver(m),
        None => Frame::Skip,
    }
}

// ---- the driver ------------------------------------------------------------------------
/// A command from the application to its local node.
#[derive(Clone, Debug, PartialEq, Eq)]
pub enum Command {
    Acquire(LockId),
    Release(LockId),
    Shutdown,
}

/// The content of a [`Command`].
pub enum CommandView {
    Acquire(Seq<char>),
    Release(Seq<char>),
    Shutdown,
}

impl View for Command {
    type V = CommandView;

    open spec fn view(&self) -> CommandView {
        match *self {
            Command::Acquire(lock) => CommandView::Acquire(lock@),
            Command::Release(lock) => CommandView::Release(lock@),
            Command::Shutdown => CommandView::Shutdown,
        }
    }
}

/// The contents of commands, in order.
pub open spec fn command_views(commands: Seq<Command>) -> Seq<CommandView> {
    commands.map_values(|c: Command| c@)
}

/// An event the node reports back to the application.
#[derive(Clone, Debug, PartialEq, Eq)]
pub enum NodeEvent {
    /// The lock is held; present the fence token to the protected resource.
    Acquired(LockId, Fence),
    /// A held lock was lost (lease lapsed, another holder took over).
    Lost(LockId),
    /// Diagnostic text (connections, etc.).
    Info(String),
}

/// The content of a [`NodeEvent`].
pub enum NodeEventView {
    Acquired(Seq<char>, Fence),
    Lost(Seq<char>),
    Info(Seq<char>),
}

impl View for NodeEvent {
    type V = NodeEventView;

    open spec fn view(&self) -> NodeEventView {
        match *self {
            NodeEvent::Acquired(lock, fence) => NodeEventView::Acquired(lock@, fence),
            NodeEvent::Lost(lock) => NodeEventView::Lost(lock@),
            NodeEvent::Info(text) => NodeEventView::Info(text@),
        }
    }
}

/// The contents of events, in order.
pub open spec fn event_views(events: Seq<NodeEvent>) -> Seq<NodeEventView> {
    events.map_values(|e: NodeEvent| e@)
}

/// The events for locks that a node has acquired.
pub open spec fn acquired_events(acquired: Seq<(Seq<char>, Fence)>) -> Seq<NodeEventView> {
    acquired.map_values(|a: (Seq<char>, Fence)| NodeEventView::Acquired(a.0, a.1))
}

/// The events for locks that a node has lost.
pub open spec fn lost_events(lost: Seq<Seq<char>>) -> Seq<NodeEventView> {
    lost.map_values(|l: Seq<char>| NodeEventView::Lost(l))
}

/// What a driver reacts to.
#[derive(Debug)]
pub enum Ev {
    /// A message from a node.
    In(NodeId, Message),
    /// A command of the application.
    Cmd(Command),
    /// A connection to this peer is there.
    Conn(NodeId),
    /// Time has passed.
    Tick,
}

/// The content of an [`Ev`].
pub enum EvView {
    In(NodeId, MessageView),
    Cmd(CommandView),
    Conn(NodeId),
    Tick,
}

impl View for Ev {
    type V = EvView;

    open spec fn view(&self) -> EvView {
        match *self {
            Ev::In(from, msg) => EvView::In(from, msg@),
            Ev::Cmd(command) => EvView::Cmd(command@),
            Ev::Conn(peer) => EvView::Conn(peer),
            Ev::Tick => EvView::Tick,
        }
    }
}

/// What is to be done with a message of the node.
#[derive(Debug)]
pub enum Delivery {
    /// Hand it to this node itself, behind what already waits there.
    Here(Message),
    /// Write it to the connection to this peer.
    Wire(NodeId, Message),
}

/// The content of a [`Delivery`].
pub enum DeliveryView {
    Here(MessageView),
    Wire(NodeId, MessageView),
}

impl View for Delivery {
    type V = DeliveryView;

    open spec fn view(&self) -> DeliveryView {
        match *self {
            Delivery::Here(msg) => DeliveryView::Here(msg@),
            Delivery::Wire(to, msg) => DeliveryView::Wire(to, msg@),
        }
    }
}

/// The messages addressed to `to`, with the address.
pub open spec fn only_to(out: Seq<OutgoingView>, to: NodeId) -> Seq<OutgoingView>
    decreases out.len(),
{
    if out.len() == 0 {
        Seq::empty()
    } else if out.last().to == to {
        only_to(out.drop_last(), to).push(out.last())
    } else {
        only_to(out.drop_last(), to)
    }
}

/// The messages addressed to others than `to`.
pub open spec fn not_to(out: Seq<OutgoingView>, to: NodeId) -> Seq<OutgoingView>
    decreases out.len(),
{
    if out.len() == 0 {
        Seq::empty()
    } else if out.last().to == to {
        not_to(out.drop_last(), to)
    } else {
        not_to(out.drop_last(), to).push(out.last())
    }
}

/// The state of a [`Driver`].
#[verifier::ext_equal]
pub struct DriverView {
    pub node: NodeView,
    /// The peers with a connection.
    pub connected: Set<NodeId>,
    /// Messages that wait for a connection.
    pub pending: Seq<OutgoingView>,
    /// Messages that are to be sent now.
    pub queue: Seq<OutgoingView>,
    /// Whether the messages of `queue` had waited for a connection: they are
    /// dropped if it breaks.
    pub flushing: bool,
    pub reports: Seq<NodeEventView>,
    pub stopped: bool,
}

impl DriverView {
    /// A driver of a fresh node.
    pub open spec fn fresh(node: NodeView) -> DriverView {
        DriverView {
            node,
            connected: Set::empty(),
            pending: Seq::empty(),
            queue: Seq::empty(),
            flushing: false,
            reports: Seq::empty(),
            stopped: false,
        }
    }

    /// The node has said all it had to say, and where there is a connection
    /// nothing waits for one.
    pub open spec fn wf(self) -> bool {
        &&& self.node.settled() == self.node
        &&& forall|p: NodeId| #[trigger]
            self.connected.contains(p) ==> sent_to(self.pending, p).len() == 0
    }

    /// The node has become `n`: what it says is to be sent and reported.
    pub open spec fn acted(self, n: NodeView) -> DriverView {
        DriverView {
            node: n.settled(),
            queue: self.queue + n.outbox,
            flushing: false,
            reports: self.reports + acquired_events(n.acquired) + lost_events(n.lost),
            ..self
        }
    }

    /// What an event does. A connection takes what waited for it.
    pub open spec fn handle(self, now: Instant, ev: EvView) -> DriverView {
        match ev {
            EvView::In(from, msg) => self.acted(self.node.handle(now, from, msg)),
            EvView::Cmd(CommandView::Acquire(lock)) => self.acted(self.node.request(now, lock)),
            EvView::Cmd(CommandView::Release(lock)) => self.acted(self.node.release(lock)),
            EvView::Cmd(CommandView::Shutdown) => DriverView { stopped: true, ..self },
            EvView::Conn(peer) => DriverView {
                connected: self.connected.insert(peer),
                pending: not_to(self.pending, peer),
                queue: self.queue + only_to(self.pending, peer),
                flushing: true,
                reports: self.reports.push(
                    NodeEventView::Info("connected to node "@ + decimal(peer as nat)),
                ),
                ..self
            },
            EvView::Tick => self.acted(self.node.tick(now)),
        }
    }

    /// Whether the machine's numbers suffice for an event.
    pub open spec fn fits(self, now: Instant, ev: EvView) -> bool {
        match ev {
            EvView::In(from, msg) => self.node.gives_lease(from, msg) ==> now + LEASE <= u64::MAX,
            EvView::Cmd(CommandView::Acquire(lock)) => self.node.requester.map.contains_key(lock)
                || self.node.lamport < u64::MAX && now + RENEW_INTERVAL <= u64::MAX,
            EvView::Tick => now + LEASE <= u64::MAX,
            _ => true,
        }
    }

    /// The next message to deliver and the driver without it. Messages without
    /// a connection are set aside on the way.
    pub open spec fn next_send(self) -> (DriverView, Option<DeliveryView>)
        decreases self.queue.len(),
    {
        if self.queue.len() == 0 {
            (self, None)
        } else {
            let o = self.queue[0];
            let rest = DriverView { queue: self.queue.skip(1), ..self };
            if o.to == self.node.id {
                (rest, Some(DeliveryView::Here(o.msg)))
            } else if self.connected.contains(o.to) {
                (rest, Some(DeliveryView::Wire(o.to, o.msg)))
            } else if self.flushing {
                rest.next_send()
            } else {
                DriverView { pending: self.pending.push(o), ..rest }.next_send()
            }
        }
    }

    /// The connection to `peer` has broken.
    pub open spec fn disconnected(self, peer: NodeId) -> DriverView {
        DriverView { connected: self.connected.remove(peer), ..self }
    }

    /// What has not gone out to `peer` yet, oldest first.
    pub open spec fn unsent(self, peer: NodeId) -> Seq<MessageView> {
        sent_to(self.pending, peer) + sent_to(self.queue, peer)
    }
}

/// The messages to one node out of two lists.
pub proof fn lemma_sent_to_concat(a: Seq<OutgoingView>, b: Seq<OutgoingView>, p: NodeId)
    ensures
        sent_to(a + b, p) == sent_to(a, p) + sent_to(b, p),
    decreases b.len(),
{
    if b.len() == 0 {
        assert(a + b =~= a);
        assert(sent_to(a, p) + sent_to(b, p) =~= sent_to(a, p));
    } else {
        lemma_sent_to_concat(a, b.drop_last(), p);
        assert((a + b).drop_last() =~= a + b.drop_last());
        assert((a + b).last() == b.last());
        assert(sent_to(a + b, p) =~= sent_to(a, p) + sent_to(b, p));
    }
}

/// Taking a node's messages out of a list leaves the others as they are.
proof fn lemma_not_to(out: Seq<OutgoingView>, to: NodeId, p: NodeId)
    ensures
        sent_to(not_to(out, to), p) == if p == to {
            Seq::empty()
        } else {
            sent_to(out, p)
        },
        sent_to(only_to(out, to), p) == if p == to {
            sent_to(out, p)
        } else {
            Seq::empty()
        },
    decreases out.len(),
{
    if out.len() > 0 {
        lemma_not_to(out.drop_last(), to, p);
        let a = not_to(out.drop_last(), to).push(out.last());
        let b = only_to(out.drop_last(), to).push(out.last());
        assert(a.drop_last() =~= not_to(out.drop_last(), to));
        assert(b.drop_last() =~= only_to(out.drop_last(), to));
    }
}

/// The first message of a list comes before the rest.
proof fn lemma_sent_to_first(out: Seq<OutgoingView>, p: NodeId)
    requires
        out.len() > 0,
    ensures
        sent_to(out, p) == if out[0].to == p {
            seq![out[0].msg] + sent_to(out.skip(1), p)
        } else {
            sent_to(out.skip(1), p)
        },
{
    let first = seq![out[0]];
    assert(out =~= first + out.skip(1));
    lemma_sent_to_concat(first, out.skip(1), p);
    assert(first.drop_last() =~= Seq::empty());
    assert(sent_to(first.drop_last(), p) =~= Seq::empty());
    if out[0].to == p {
        assert(sent_to(first, p) =~= seq![out[0].msg]);
    } else {
        assert(sent_to(first, p) + sent_to(out.skip(1), p) =~= sent_to(out.skip(1), p));
    }
}

/// **Events keep links in order.** An event puts what the node now sends to a
/// peer behind what has not gone out to that peer yet, and changes nothing
/// else: a connection only makes what waits for it ready to go.
pub proof fn law_events_keep_order(d: DriverView, now: Instant, ev: EvView, p: NodeId)
    requires
        d.wf(),
        d.queue.len() == 0,
    ensures
        d.handle(now, ev).wf(),
        d.handle(now, ev).unsent(p) == d.unsent(p) + sent_to(
            match ev {
                EvView::In(from, msg) => d.node.handle(now, from, msg).outbox,
                EvView::Cmd(CommandView::Acquire(lock)) => d.node.request(now, lock).outbox,
                EvView::Cmd(CommandView::Release(lock)) => d.node.release(lock).outbox,
                EvView::Cmd(CommandView::Shutdown) => Seq::empty(),
                EvView::Conn(peer) => Seq::empty(),
                EvView::Tick => d.node.tick(now).outbox,
            },
            p,
        ),
{
    let e = d.handle(now, ev);
    assert(sent_to(d.queue, p) =~= Seq::empty());
    assert(sent_to(Seq::<OutgoingView>::empty(), p) =~= Seq::empty());
    match ev {
        EvView::Conn(peer) => {
            lemma_not_to(d.pending, peer, p);
            assert(d.queue + only_to(d.pending, peer) =~= only_to(d.pending, peer));
            assert(e.unsent(p) =~= d.unsent(p) + Seq::empty());
            assert forall|q: NodeId| #[trigger] e.connected.contains(q) implies sent_to(
                e.pending,
                q,
            ).len() == 0 by {
                lemma_not_to(d.pending, peer, q);
                if q != peer {
                    assert(d.connected.contains(q));
                }
            }
        },
        EvView::Cmd(CommandView::Shutdown) => {
            assert(e.unsent(p) =~= d.unsent(p) + Seq::empty());
        },
        _ => {
            let out = e.queue;
            assert forall|n: NodeView| d.queue + #[trigger] n.outbox =~= n.outbox by {}
            assert(e.unsent(p) =~= d.unsent(p) + sent_to(out, p));
            assert(e.node.settled() =~= e.node);
            assert forall|q: NodeId| #[trigger] e.connected.contains(q) implies sent_to(
                e.pending,
                q,
            ).len() == 0 by {
                assert(d.connected.contains(q));
            }
        },
    }
}

/// **Sending keeps links in order.** What goes out to a peer is the oldest
/// message that has not gone out to it yet; nothing is lost, overtaken or sent
/// twice. Only while a broken connection's messages are being given up is
/// anything dropped.
pub proof fn law_sending_keeps_order(d: DriverView, p: NodeId)
    requires
        d.wf(),
        p != d.node.id,
        d.flushing ==> forall|i: int|
            0 <= i < d.queue.len() ==> d.connected.contains((#[trigger] d.queue[i]).to),
    ensures
        d.next_send().0.wf(),
        d.unsent(p) == match d.next_send().1 {
            Some(DeliveryView::Wire(to, msg)) => if to == p {
                seq![msg] + d.next_send().0.unsent(p)
            } else {
                d.next_send().0.unsent(p)
            },
            _ => d.next_send().0.unsent(p),
        },
        d.next_send().1 is None ==> d.next_send().0.queue.len() == 0,
    decreases d.queue.len(),
{
    if d.queue.len() > 0 {
        let o = d.queue[0];
        let rest = DriverView { queue: d.queue.skip(1), ..d };
        lemma_sent_to_first(d.queue, p);
        if o.to == d.node.id {
            assert(rest.wf());
        } else if d.connected.contains(o.to) {
            assert(rest.wf());
            if o.to == p {
                assert(sent_to(d.pending, p) =~= Seq::empty());
                assert(d.unsent(p) =~= seq![o.msg] + rest.unsent(p));
            }
        } else {
            assert(!d.flushing);
            let e = DriverView { pending: d.pending.push(o), ..rest };
            assert(e.pending.drop_last() =~= d.pending);
            assert forall|q: NodeId| #[trigger] e.connected.contains(q) implies sent_to(
                e.pending,
                q,
            ).len() == 0 by {
                assert(d.connected.contains(q));
                assert(q != o.to);
            }
            assert(e.unsent(p) =~= d.unsent(p));
            law_sending_keeps_order(e, p);
        }
    }
}

/// Runs a [`Node`]: owns it, keeps what cannot be sent yet, and says what is to
/// be sent and reported.
pub struct Driver {
    node: Node,
    connected: Vec<NodeId>,
    pending: Vec<Outgoing>,
    queue: VecDeque<Outgoing>,
    flushing: bool,
    reports: Vec<NodeEvent>,
    stopped: bool,
}

impl View for Driver {
    type V = DriverView;

    closed spec fn view(&self) -> DriverView {
        DriverView {
            node: self.node@,
            connected: self.connected@.to_set(),
            pending: outgoing_views(self.pending@),
            queue: outgoing_views(self.queue@),
            flushing: self.flushing,
            reports: event_views(self.reports@),
            stopped: self.stopped,
        }
    }
}

/// The members of a cluster of `n` nodes.
pub open spec fn first_ids(n: nat) -> Seq<NodeId> {
    Seq::new(n, |i: int| i as NodeId)
}

/// The ids below `n`, in order.
pub fn ids_below(n: u32) -> (v: Vec<NodeId>)
    ensures
        v@ == first_ids(n as nat),
        forall|id: NodeId| id < n ==> valid_members(id, v@),
{
    let mut v: Vec<NodeId> = Vec::new();
    let mut i: u32 = 0;
    while i < n
        invariant
            i <= n,
            v@ == first_ids(i as nat),
        decreases n - i,
    {
        v.push(i);
        i += 1;
        assert(v@ =~= first_ids(i as nat));
    }
    proof {
        assert forall|id: NodeId| id < n implies valid_members(id, v@) by {
            assert(v@[id as int] == id);
        }
    }
    v
}

/// Append messages.
fn push_outgoing(queue: &mut VecDeque<Outgoing>, out: Vec<Outgoing>)
    ensures
        outgoing_views(final(queue)@) == outgoing_views(old(queue)@) + outgoing_views(out@),
{
    let ghost all = outgoing_views(out@);
    assert(outgoing_views(queue@) =~= outgoing_views(old(queue)@) + all.take(0));
    for o in it: out
        invariant
            it.seq() == out@,
            all == outgoing_views(out@),
            outgoing_views(queue@) == outgoing_views(old(queue)@) + all.take(it.index() as int),
    {
        let ghost i = it.index() as int;
        let ghost before = queue@;
        queue.push_back(o);
        proof {
            assert(outgoing_views(queue@) =~= outgoing_views(before).push(o@));
            assert(all[i] == o@);
            assert(outgoing_views(queue@) =~= outgoing_views(old(queue)@) + all.take(i + 1));
        }
    }
    assert(all.take(all.len() as int) =~= all);
}

impl Driver {
    /// What the driver keeps to: the node is well-formed, and so is the state.
    pub closed spec fn wf(&self) -> bool {
        &&& self.node.wf()
        &&& self@.wf()
        &&& self.connected@.no_duplicates()
    }

    /// A well-formed driver has a well-formed state.
    pub proof fn lemma_wf_view(&self)
        requires
            self.wf(),
        ensures
            self@.wf(),
    {
    }

    /// A driver of node `id` in a cluster of `n` nodes.
    pub fn new(id: NodeId, n: u32, policy: QuorumPolicy) -> (d: Driver)
        requires
            id < n,
        ensures
            d.wf(),
            d@ == DriverView::fresh(NodeView::fresh(id, policy, first_ids(n as nat))),
    {
        let members = ids_below(n);
        let node = Node::with_policy(id, members, policy);
        let d = Driver {
            node,
            connected: Vec::new(),
            pending: Vec::new(),
            queue: VecDeque::new(),
            flushing: false,
            reports: Vec::new(),
            stopped: false,
        };
        proof {
            assert(d@.connected =~= Set::empty());
            assert(d@.pending =~= Seq::empty());
            assert(d@.queue =~= Seq::empty());
            assert(d@.reports =~= Seq::empty());
            assert(d@.node.settled() =~= d@.node);
        }
        d
    }

    /// The id of the node.
    pub fn id(&self) -> (id: NodeId)
        requires
            self.wf(),
        ensures
            id == self@.node.id,
    {
        self.node.id()
    }

    /// The node's Lamport clock.
    pub fn clock(&self) -> (ts: u64)
        ensures
            ts == self@.node.lamport,
    {
        self.node.clock()
    }

    /// Whether the application has asked to stop.
    pub fn stopped(&self) -> (b: bool)
        ensures
            b == self@.stopped,
    {
        self.stopped
    }

    /// Move what the node has to say to the queue and the reports.
    fn collect(&mut self)
        requires
            old(self).node.wf(),
            old(self).connected@.no_duplicates(),
        ensures
            final(self).node.wf(),
            final(self).connected@.no_duplicates(),
            final(self)@ == old(self)@.acted(old(self)@.node),
    {
        let ghost n = self@.node;
        let out = self.node.drain_outbox();
        push_outgoing(&mut self.queue, out);
        self.flushing = false;
        let acquired = self.node.take_acquired();
        let ghost all = acquired_events(n.acquired);
        let ghost before = event_views(self.reports@);
        assert(event_views(self.reports@) =~= before + all.take(0));
        let ghost frame = *self;
        for a in it: acquired
            invariant
                it.seq() == acquired@,
                acquired_views(acquired@) == n.acquired,
                all == acquired_events(n.acquired),
                *self == (Driver { reports: self.reports, ..frame }),
                event_views(self.reports@) == before + all.take(it.index() as int),
        {
            let ghost i = it.index() as int;
            let ghost was = self.reports@;
            proof {
                assert(acquired_views(acquired@)[i] == (a.0@, a.1));
                assert(all[i] == NodeEventView::Acquired(a.0@, a.1));
            }
            self.reports.push(NodeEvent::Acquired(a.0, a.1));
            proof {
                assert(event_views(self.reports@) =~= event_views(was).push(all[i]));
                assert(event_views(self.reports@) =~= before + all.take(i + 1));
            }
        }
        assert(all.take(all.len() as int) =~= all);
        let lost = self.node.take_lost();
        let ghost gone = lost_events(n.lost);
        let ghost before = event_views(self.reports@);
        assert(event_views(self.reports@) =~= before + gone.take(0));
        let ghost frame = *self;
        for l in it: lost
            invariant
                it.seq() == lost@,
                lock_views(lost@) == n.lost,
                gone == lost_events(n.lost),
                *self == (Driver { reports: self.reports, ..frame }),
                event_views(self.reports@) == before + gone.take(it.index() as int),
        {
            let ghost i = it.index() as int;
            let ghost was = self.reports@;
            proof {
                assert(lock_views(lost@)[i] == l@);
                assert(gone[i] == NodeEventView::Lost(l@));
            }
            self.reports.push(NodeEvent::Lost(l));
            proof {
                assert(event_views(self.reports@) =~= event_views(was).push(gone[i]));
                assert(event_views(self.reports@) =~= before + gone.take(i + 1));
            }
        }
        proof {
            assert(gone.take(gone.len() as int) =~= gone);
            assert(self@.node =~= n.settled());
            assert(self@ =~= old(self)@.acted(n));
        }
    }

    /// A connection to `peer` is there: what waited for it is to be sent.
    fn connect(&mut self, peer: NodeId)
        requires
            old(self).wf(),
            old(self)@.queue.len() == 0,
        ensures
            final(self).wf(),
            final(self)@ == old(self)@.handle(0, EvView::Conn(peer)),
    {
        if !contains_node(&self.connected, peer) {
            let ghost before = self.connected@;
            self.connected.push(peer);
            proof {
                assert(self.connected@.to_set() =~= before.to_set().insert(peer)) by {
                    assert forall|p: NodeId| #[trigger] self.connected@.contains(p)
                        == (before.contains(p) || p == peer) by {
                        if before.contains(p) {
                            assert(self.connected@[before.index_of(p)] == p);
                        }
                        assert(self.connected@[before.len() as int] == peer);
                    }
                }
            }
        } else {
            assert(self.connected@.to_set().insert(peer) =~= self.connected@.to_set());
        }
        let mut parked: Vec<Outgoing> = Vec::new();
        std::mem::swap(&mut parked, &mut self.pending);
        let ghost all = outgoing_views(parked@);
        let ghost before = outgoing_views(self.queue@);
        let ghost frame = *self;
        proof {
            assert(outgoing_views(self.pending@) =~= not_to(all.take(0), peer));
            assert(outgoing_views(self.queue@) =~= before + only_to(all.take(0), peer));
        }
        for o in it: parked
            invariant
                it.seq() == parked@,
                all == outgoing_views(parked@),
                *self == (Driver { pending: self.pending, queue: self.queue, ..frame }),
                outgoing_views(self.pending@) == not_to(all.take(it.index() as int), peer),
                outgoing_views(self.queue@) == before + only_to(
                    all.take(it.index() as int),
                    peer,
                ),
        {
            let ghost i = it.index() as int;
            let ghost was = (outgoing_views(self.pending@), outgoing_views(self.queue@));
            proof {
                assert(all[i] == o@);
                assert(all.take(i + 1).drop_last() =~= all.take(i));
                assert(all.take(i + 1).last() == o@);
            }
            if o.to == peer {
                self.queue.push_back(o);
                assert(outgoing_views(self.queue@) =~= was.1.push(o@));
                assert(outgoing_views(self.queue@) =~= before + only_to(all.take(i + 1), peer));
            } else {
                self.pending.push(o);
                assert(outgoing_views(self.pending@) =~= was.0.push(o@));
            }
        }
        assert(all.take(all.len() as int) =~= all);
        self.flushing = true;
        let mut text = chars_of("connected to node ");
        push_chars(&mut text, &decimal_chars(peer as u64));
        let ghost was = event_views(self.reports@);
        self.reports.push(NodeEvent::Info(string_of(&text)));
        proof {
            law_events_keep_order(old(self)@, 0, EvView::Conn(peer), peer);
            assert(event_views(self.reports@) =~= was.push(
                NodeEventView::Info("connected to node "@ + decimal(peer as nat)),
            ));
            assert(self@ =~= old(self)@.handle(0, EvView::Conn(peer)));
        }
    }

    /// React to an event. Afterwards [`Driver::next_send`] says what is to be
    /// sent, until it has nothing more, and [`Driver::take_reports`] what is to
    /// be reported.
    pub fn handle(&mut self, now: Instant, ev: Ev)
        requires
            old(self).wf(),
            old(self)@.queue.len() == 0,
            old(self)@.fits(now, ev@),
        ensures
            final(self).wf(),
            final(self)@ == old(self)@.handle(now, ev@),
    {
        proof {
            law_events_keep_order(old(self)@, now, ev@, 0);
        }
        match ev {
            Ev::Conn(peer) => {
                self.connect(peer);
                return ;
            },
            Ev::Cmd(Command::Shutdown) => {
                self.stopped = true;
                return ;
            },
            Ev::In(from, msg) => self.node.handle(now, from, msg),
            Ev::Cmd(Command::Acquire(lock)) => self.node.request(now, lock.as_str()),
            Ev::Cmd(Command::Release(lock)) => self.node.release(now, lock.as_str()),
            Ev::Tick => self.node.tick(now),
        }
        self.collect();
    }

    /// The next message to deliver; nothing once all are delivered or set aside
    /// until there is a connection.
    pub fn next_send(&mut self) -> (r: Option<Delivery>)
        requires
            old(self).wf(),
        ensures
            final(self).wf(),
            final(self)@ == old(self)@.next_send().0,
            match r {
                Some(d) => old(self)@.next_send().1 == Some(d@),
                None => old(self)@.next_send().1 is None && final(self)@.queue.len() == 0,
            },
    {
        while self.queue.len() > 0
            invariant
                self.wf(),
                self@.next_send() == old(self)@.next_send(),
            decreases self.queue@.len(),
        {
            let ghost d = self@;
            let ghost was = self.queue@;
            let o = match self.queue.pop_front() {
                Some(o) => o,
                None => {
                    return None;
                },
            };
            let ghost rest = DriverView { queue: d.queue.skip(1), ..d };
            proof {
                assert(d.queue[0] == o@);
                assert(outgoing_views(self.queue@) =~= outgoing_views(was).skip(1));
                assert(self@ =~= rest);
                assert(rest.wf());
            }
            if o.to == self.node.id() {
                return Some(Delivery::Here(o.msg));
            }
            if contains_node(&self.connected, o.to) {
                return Some(Delivery::Wire(o.to, o.msg));
            }
            if !self.flushing {
                let ghost parked = self.pending@;
                self.pending.push(o);
                proof {
                    assert(outgoing_views(self.pending@) =~= outgoing_views(parked).push(o@));
                    let e = DriverView { pending: d.pending.push(o@), ..rest };
                    assert(self@ =~= e);
                    assert(e.pending.drop_last() =~= d.pending);
                    assert forall|q: NodeId| #[trigger] e.connected.contains(q) implies sent_to(
                        e.pending,
                        q,
                    ).len() == 0 by {
                        assert(d.connected.contains(q));
                    }
                }
            }
        }
        None
    }

    /// The connection to `peer` has broken: what is sent to it from now on waits
    /// for the next one.
    pub fn disconnected(&mut self, peer: NodeId)
        requires
            old(self).wf(),
        ensures
            final(self).wf(),
            final(self)@ == old(self)@.disconnected(peer),
    {
        let ghost before = self.connected@;
        remove_node(&mut self.connected, peer);
        proof {
            let after = self.connected@;
            lemma_vote_removed(before, peer);
            assert(after.to_set() =~= before.to_set().remove(peer));
            assert forall|q: NodeId| #[trigger] self@.connected.contains(q) implies sent_to(
                self@.pending,
                q,
            ).len() == 0 by {
                assert(old(self)@.connected.contains(q));
            }
            assert(self@ =~= old(self)@.disconnected(peer));
        }
    }

    /// Take what is to be reported to the application.
    pub fn take_reports(&mut self) -> (reports: Vec<NodeEvent>)
        requires
            old(self).wf(),
        ensures
            final(self).wf(),
            event_views(reports@) == old(self)@.reports,
            final(self)@ == (DriverView { reports: Seq::empty(), ..old(self)@ }),
    {
        let mut reports: Vec<NodeEvent> = Vec::new();
        std::mem::swap(&mut reports, &mut self.reports);
        assert(self@ =~= DriverView { reports: Seq::empty(), ..old(self)@ });
        reports
    }
}

} // verus!
