//! What goes over the wire: the words, lines and structures that stand for messages, and what
//! a node's driver does with what the node says.
use vstd::prelude::*;

use vstd::utf8::*;

use crate::codec::{
    compact_message, escape, message_in, named_message, tag, tagged, text_line, text_message,
    unescape, unescaped_lock, variant, variant_kind, WireCodec,
};
use crate::json::{json_text, json_value, msgpack_bytes, msgpack_value, JsonView};
use crate::model::NodeView;
use crate::quorum::QuorumPolicy;
use crate::requests::{law_fields_are_found, said_at, says, silent};
use crate::text::{decimal, hex_bytes, hex_char, hex_text, hex_val, parse_number, words};
use crate::transport::{
    first_ids, not_to, only_to, CommandView, DeliveryView, DriverView, EvView, NodeEventView,
};
use crate::types::{
    Fence, Instant, Message, MessageKind, MessageView, NodeId, OutgoingView, RequestId,
};

verus! {

// ---- words ----------------------------------------------------------------------------------------
/// The word for a kind of message in a line of text.
pub open spec fn line_word(kind: MessageKind) -> Seq<char> {
    match kind {
        MessageKind::Request => "REQUEST"@,
        MessageKind::Grant => "GRANT"@,
        MessageKind::Inquire => "INQUIRE"@,
        MessageKind::Yield => "YIELD"@,
        MessageKind::Confirm => "CONFIRM"@,
        MessageKind::Release => "RELEASE"@,
        MessageKind::Renew => "RENEW"@,
        MessageKind::Revoked => "REVOKED"@,
    }
}

/// The name for a kind of message in a structure.
pub open spec fn field_word(kind: MessageKind) -> Seq<char> {
    match kind {
        MessageKind::Request => "Request"@,
        MessageKind::Grant => "Grant"@,
        MessageKind::Inquire => "Inquire"@,
        MessageKind::Yield => "Yield"@,
        MessageKind::Confirm => "Confirm"@,
        MessageKind::Release => "Release"@,
        MessageKind::Renew => "Renew"@,
        MessageKind::Revoked => "Revoked"@,
    }
}

/// **Every kind of message has its word**, and every other word stands for none.
pub proof fn law_kinds_have_words(kind: MessageKind, word: Seq<char>)
    ensures
        tag(kind) == line_word(kind),
        tagged(line_word(kind)) == Some(kind),
        tagged(word) matches Some(k) ==> word == line_word(k),
        variant(kind) == field_word(kind),
        variant_kind(field_word(kind)) == Some(kind),
        variant_kind(word) matches Some(k) ==> word == field_word(k),
{
    reveal_strlit("REQUEST");
    reveal_strlit("GRANT");
    reveal_strlit("INQUIRE");
    reveal_strlit("YIELD");
    reveal_strlit("CONFIRM");
    reveal_strlit("RELEASE");
    reveal_strlit("RENEW");
    reveal_strlit("REVOKED");
    assert("REQUEST"@.len() == 7);
    assert("GRANT"@.len() == 5);
    assert("INQUIRE"@.len() == 7);
    assert("YIELD"@.len() == 5);
    assert("CONFIRM"@.len() == 7);
    assert("RELEASE"@.len() == 7);
    assert("RENEW"@.len() == 5);
    assert("REVOKED"@.len() == 7);
    assert("REQUEST"@[0] == 'R');
    assert("REQUEST"@[2] == 'Q');
    assert("GRANT"@[0] == 'G');
    assert("INQUIRE"@[0] == 'I');
    assert("YIELD"@[0] == 'Y');
    assert("CONFIRM"@[0] == 'C');
    assert("RELEASE"@[0] == 'R');
    assert("RELEASE"@[2] == 'L');
    assert("RENEW"@[0] == 'R');
    assert("REVOKED"@[0] == 'R');
    assert("REVOKED"@[2] == 'V');
    reveal_strlit("Request");
    reveal_strlit("Grant");
    reveal_strlit("Inquire");
    reveal_strlit("Yield");
    reveal_strlit("Confirm");
    reveal_strlit("Release");
    reveal_strlit("Renew");
    reveal_strlit("Revoked");
    assert("Request"@.len() == 7);
    assert("Grant"@.len() == 5);
    assert("Inquire"@.len() == 7);
    assert("Yield"@.len() == 5);
    assert("Confirm"@.len() == 7);
    assert("Release"@.len() == 7);
    assert("Renew"@.len() == 5);
    assert("Revoked"@.len() == 7);
    assert("Request"@[0] == 'R');
    assert("Request"@[2] == 'q');
    assert("Grant"@[0] == 'G');
    assert("Inquire"@[0] == 'I');
    assert("Yield"@[0] == 'Y');
    assert("Confirm"@[0] == 'C');
    assert("Release"@[0] == 'R');
    assert("Release"@[2] == 'l');
    assert("Renew"@[0] == 'R');
    assert("Revoked"@[0] == 'R');
    assert("Revoked"@[2] == 'v');
}

/// **Tokens travel with three kinds**: with the vote, with the confirmation and with the
/// release. Votes, inquiries and revocations go to the requester, the others to the arbiter.
pub proof fn law_tokens_travel_with_three_kinds(kind: MessageKind)
    ensures
        kind.has_fence() <==> kind is Grant || kind is Confirm || kind is Release,
        kind.to_arbiter() <==> !(kind is Grant || kind is Inquire || kind is Revoked),
{
}

/// **Requests are ordered** by their time, and by their node where the times are equal.
pub proof fn law_requests_are_ordered(a: RequestId, b: RequestId, c: RequestId)
    ensures
        a.precedes(b) <==> a.ts < b.ts || (a.ts == b.ts && a.node < b.node),
        !a.precedes(a),
        a != b ==> a.precedes(b) != b.precedes(a),
        a.precedes(b) && b.precedes(c) ==> a.precedes(c),
{
}

/// **Contents are complete**: what is said of a message's content is said of the message.
pub proof fn law_contents_are_complete(lock: String, req: RequestId, fence: Fence)
    ensures
        (Message::Request { lock, req })@ == (MessageView {
            kind: MessageKind::Request,
            lock: lock@,
            req,
            fence: 0,
        }),
        (Message::Grant { lock, req, fence })@ == (MessageView {
            kind: MessageKind::Grant,
            lock: lock@,
            req,
            fence,
        }),
        (Message::Inquire { lock, req })@ == (MessageView {
            kind: MessageKind::Inquire,
            lock: lock@,
            req,
            fence: 0,
        }),
        (Message::Yield { lock, req })@ == (MessageView {
            kind: MessageKind::Yield,
            lock: lock@,
            req,
            fence: 0,
        }),
        (Message::Confirm { lock, req, fence })@ == (MessageView {
            kind: MessageKind::Confirm,
            lock: lock@,
            req,
            fence,
        }),
        (Message::Release { lock, req, fence })@ == (MessageView {
            kind: MessageKind::Release,
            lock: lock@,
            req,
            fence,
        }),
        (Message::Renew { lock, req })@ == (MessageView {
            kind: MessageKind::Renew,
            lock: lock@,
            req,
            fence: 0,
        }),
        (Message::Revoked { lock, req })@ == (MessageView {
            kind: MessageKind::Revoked,
            lock: lock@,
            req,
            fence: 0,
        }),
{
}

// ---- names of locks -------------------------------------------------------------------------------
/// **Names are escaped byte by byte.** A visible character stands for itself; the percent
/// sign and every other byte is written as a percent sign and two digits.
pub proof fn law_names_are_escaped(bytes: Seq<u8>, b: u8)
    ensures
        escape(Seq::empty()) == Seq::<char>::empty(),
        33 <= b <= 126 && b != 37 ==> escape(bytes.push(b)) == escape(bytes).push(b as char),
        !(33 <= b <= 126) || b == 37 ==> escape(bytes.push(b)) == escape(bytes) + seq![
            '%',
            hex_char(b / 16),
            hex_char(b % 16),
        ],
{
    assert(bytes.push(b).drop_last() =~= bytes);
    if 33 <= b <= 126 && b != 37 {
        assert(escape(bytes.push(b)) =~= escape(bytes).push(b as char));
    }
}

/// **Escaped names are read byte by byte**; half an escape stands for nothing.
pub proof fn law_escaped_names_are_read(b: u8, hi: u8, lo: u8, rest: Seq<u8>, out: Seq<u8>)
    requires
        unescape(rest) == Some(out),
    ensures
        unescape(Seq::empty()) == Some(Seq::<u8>::empty()),
        b != 37 ==> unescape(seq![b] + rest) == Some(seq![b] + out),
        hex_val(hi) is Some && hex_val(lo) is Some ==> unescape(seq![37u8, hi, lo] + rest)
            == Some(seq![(16 * hex_val(hi)->0 + hex_val(lo)->0) as u8] + out),
        hex_val(hi) is None || hex_val(lo) is None ==> unescape(seq![37u8, hi, lo] + rest) is None,
        unescape(seq![37u8]) is None,
        unescape(seq![37u8, hi]) is None,
{
    assert((seq![b] + rest).skip(1) =~= rest);
    let s = seq![37u8, hi, lo] + rest;
    assert(s[0] == 37 && s[1] == hi && s[2] == lo);
    assert(s.skip(3) =~= rest);
}

// ---- lines ----------------------------------------------------------------------------------------
/// **A line has the parts of a message in order**: its word, the escaped name of the lock, the
/// time and the node of the request, and the token where the kind has one.
pub proof fn law_lines_have_the_parts(m: MessageView)
    ensures
        ({
            let plain = line_word(m.kind) + " "@ + escape(encode_utf8(m.lock)) + " "@ + decimal(
                m.req.ts as nat,
            ) + " "@ + decimal(m.req.node as nat);
            &&& m.kind is Grant || m.kind is Confirm || m.kind is Release ==> text_line(m) == plain
                + " "@ + decimal(m.fence as nat)
            &&& !(m.kind is Grant || m.kind is Confirm || m.kind is Release) ==> text_line(m)
                == plain
        }),
{
    law_kinds_have_words(m.kind, Seq::empty());
    reveal_strlit(" ");
    assert(" "@ =~= seq![' ']);
    let lock = escape(encode_utf8(m.lock));
    let ts = decimal(m.req.ts as nat);
    let node = decimal(m.req.node as nat);
    let fence = decimal(m.fence as nat);
    let w = line_word(m.kind);
    let a = w.push(' ') + lock;
    assert(a =~= w + " "@ + lock);
    let b = a.push(' ') + ts;
    assert(b =~= w + " "@ + lock + " "@ + ts);
    let c = b.push(' ') + node;
    assert(c =~= w + " "@ + lock + " "@ + ts + " "@ + node);
    assert(c.push(' ') + fence =~= w + " "@ + lock + " "@ + ts + " "@ + node + " "@ + fence);
}

/// **A line is read by its words.** Each part must be there and be what it should; a kind with
/// a token has one word more.
pub proof fn law_lines_are_read_by_their_words(line: Seq<char>, kind: MessageKind)
    ensures
        ({
            let w = words(line);
            let fenced = kind is Grant || kind is Confirm || kind is Release;
            &&& w.len() < 4 || w.len() > 5 ==> text_message(line) is None
            &&& w.len() >= 4 && tagged(w[0]) is None ==> text_message(line) is None
            &&& w.len() >= 4 && w[0] == line_word(kind) ==> match (
                unescaped_lock(w[1]),
                parse_number(w[2], u64::MAX as nat),
                parse_number(w[3], u32::MAX as nat),
            ) {
                (Some(lock), Some(ts), Some(node)) => {
                    let req = RequestId { ts: ts as u64, node: node as NodeId };
                    &&& !fenced && w.len() == 4 ==> text_message(line) == Some(
                        MessageView { kind, lock, req, fence: 0 },
                    )
                    &&& !fenced && w.len() == 5 ==> text_message(line) is None
                    &&& fenced && w.len() == 4 ==> text_message(line) is None
                    &&& fenced && w.len() == 5 ==> match parse_number(w[4], u64::MAX as nat) {
                        Some(fence) => text_message(line) == Some(
                            MessageView { kind, lock, req, fence: fence as Fence },
                        ),
                        None => text_message(line) is None,
                    }
                },
                _ => text_message(line) is None,
            }
        }),
{
    law_kinds_have_words(kind, Seq::empty());
}

// ---- structures -----------------------------------------------------------------------------------
/// The names of the parts.
proof fn lemma_part_names()
    ensures
        "lock"@.len() == 4 && "req"@.len() == 3 && "fence"@.len() == 5,
        "ts"@.len() == 2 && "node"@.len() == 4,
{
    reveal_strlit("lock");
    reveal_strlit("req");
    reveal_strlit("fence");
    reveal_strlit("ts");
    reveal_strlit("node");
}

/// **A structure has one field, named for the kind**, that holds the parts: by name in JSON,
/// in order in MessagePack.
pub proof fn law_structures_have_the_parts(m: MessageView)
    ensures
        ({
            let fenced = m.kind is Grant || m.kind is Confirm || m.kind is Release;
            &&& named_message(m) matches JsonView::Object(outer) && outer.len() == 1 && outer[0].0
                == field_word(m.kind) && says(outer[0].1, "lock"@, JsonView::Str(m.lock)) && (
            outer[0].1.get("req"@) matches Some(req) && says(
                req,
                "ts"@,
                JsonView::Number(m.req.ts),
            ) && says(req, "node"@, JsonView::Number(m.req.node as u64))) && (fenced ==> says(
                outer[0].1,
                "fence"@,
                JsonView::Number(m.fence),
            )) && (!fenced ==> silent(outer[0].1, "fence"@))
            &&& compact_message(m) == JsonView::Object(
                seq![
                    (
                        field_word(m.kind),
                        JsonView::Array(
                            if fenced {
                                seq![
                                    JsonView::Str(m.lock),
                                    JsonView::Array(
                                        seq![
                                            JsonView::Number(m.req.ts),
                                            JsonView::Number(m.req.node as u64),
                                        ],
                                    ),
                                    JsonView::Number(m.fence),
                                ]
                            } else {
                                seq![
                                    JsonView::Str(m.lock),
                                    JsonView::Array(
                                        seq![
                                            JsonView::Number(m.req.ts),
                                            JsonView::Number(m.req.node as u64),
                                        ],
                                    ),
                                ]
                            },
                        ),
                    ),
                ],
            )
        }),
{
    law_kinds_have_words(m.kind, Seq::empty());
    lemma_part_names();
    let outer = named_message(m)->Object_0;
    let body = outer[0].1;
    let req = crate::codec::named_request(m.req);
    assert(said_at(body, "lock"@, JsonView::Str(m.lock), 0));
    assert(said_at(body, "req"@, req, 1));
    law_fields_are_found(body, "req"@, req);
    assert(said_at(req, "ts"@, JsonView::Number(m.req.ts), 0));
    assert(said_at(req, "node"@, JsonView::Number(m.req.node as u64), 1));
    if m.kind.has_fence() {
        assert(said_at(body, "fence"@, JsonView::Number(m.fence), 2));
        let items = seq![
            JsonView::Str(m.lock),
            JsonView::Array(
                seq![JsonView::Number(m.req.ts), JsonView::Number(m.req.node as u64)],
            ),
        ];
        assert(items.push(JsonView::Number(m.fence)) =~= seq![
            JsonView::Str(m.lock),
            JsonView::Array(
                seq![JsonView::Number(m.req.ts), JsonView::Number(m.req.node as u64)],
            ),
            JsonView::Number(m.fence),
        ]);
    }
}

/// A request id as a structure, by name or in order.
pub open spec fn tells_request(v: JsonView, req: RequestId) -> bool {
    ||| says(v, "ts"@, JsonView::Number(req.ts)) && says(
        v,
        "node"@,
        JsonView::Number(req.node as u64),
    )
    ||| v == JsonView::Array(
        seq![JsonView::Number(req.ts), JsonView::Number(req.node as u64)],
    )
}

/// **Structures are read by name or in order.** By name, the order does not matter and other
/// fields are passed over; in order, there is nothing else. Where a part is missing, there is
/// no message.
pub proof fn law_structures_are_read(
    kind: MessageKind,
    lock: Seq<char>,
    req: RequestId,
    fence: Fence,
    id: JsonView,
    body: JsonView,
)
    requires
        tells_request(id, req),
    ensures
        ({
            let fenced = kind is Grant || kind is Confirm || kind is Release;
            let v = JsonView::Object(seq![(field_word(kind), body)]);
            let named = says(body, "lock"@, JsonView::Str(lock)) && says(body, "req"@, id);
            &&& named && !fenced ==> message_in(v) == Some(
                MessageView { kind, lock, req, fence: 0 },
            )
            &&& named && fenced && says(body, "fence"@, JsonView::Number(fence)) ==> message_in(v)
                == Some(MessageView { kind, lock, req, fence })
            &&& body == JsonView::Array(seq![JsonView::Str(lock), id]) && !fenced ==> message_in(v)
                == Some(MessageView { kind, lock, req, fence: 0 })
            &&& body == JsonView::Array(seq![JsonView::Str(lock), id, JsonView::Number(fence)])
                && fenced ==> message_in(v) == Some(MessageView { kind, lock, req, fence })
            &&& body is Object && silent(body, "lock"@) ==> message_in(v) is None
            &&& body is Object && silent(body, "req"@) ==> message_in(v) is None
            &&& body is Object && fenced && silent(body, "fence"@) ==> message_in(v) is None
            &&& body matches JsonView::Array(items) ==> (items.len() != (if fenced {
                3int
            } else {
                2
            }) ==> message_in(v) is None)
            &&& !(body is Object) && !(body is Array) ==> message_in(v) is None
        }),
{
    law_kinds_have_words(kind, Seq::empty());
    law_fields_are_found(id, "ts"@, JsonView::Number(req.ts));
    law_fields_are_found(id, "node"@, JsonView::Number(req.node as u64));
    law_fields_are_found(body, "lock"@, JsonView::Str(lock));
    law_fields_are_found(body, "req"@, id);
    law_fields_are_found(body, "fence"@, JsonView::Number(fence));
    assert(crate::codec::request_in(id) == Some(req)) by {
        if says(id, "ts"@, JsonView::Number(req.ts)) {
            let i = choose|i: int| #[trigger] said_at(id, "ts"@, JsonView::Number(req.ts), i);
            assert(id is Object);
        }
    }
    if says(body, "lock"@, JsonView::Str(lock)) {
        let i = choose|i: int| #[trigger] said_at(body, "lock"@, JsonView::Str(lock), i);
        assert(body is Object);
    }
}

/// **Bad parts make no message**: a lock that is no text, a time, a node or a token that is no
/// number, or a node beyond 32 bits.
pub proof fn law_bad_parts_are_none(
    kind: MessageKind,
    body: JsonView,
    id: JsonView,
    bad: JsonView,
    n: u64,
)
    ensures
        ({
            let fenced = kind is Grant || kind is Confirm || kind is Release;
            let v = JsonView::Object(seq![(field_word(kind), body)]);
            &&& says(body, "lock"@, bad) && !(bad is Str) ==> message_in(v) is None
            &&& fenced && says(body, "fence"@, bad) && !(bad is Number) ==> message_in(v) is None
            &&& says(body, "req"@, id) && id is Object && (silent(id, "ts"@) || silent(
                id,
                "node"@,
            )) ==> message_in(v) is None
            &&& says(body, "req"@, id) && (says(id, "ts"@, bad) || says(id, "node"@, bad)) && !(
            bad is Number) ==> message_in(v) is None
            &&& says(body, "req"@, id) && says(id, "node"@, JsonView::Number(n)) && n > u32::MAX
                ==> message_in(v) is None
        }),
{
    law_kinds_have_words(kind, Seq::empty());
    law_fields_are_found(body, "lock"@, bad);
    law_fields_are_found(body, "fence"@, bad);
    law_fields_are_found(body, "req"@, id);
    law_fields_are_found(id, "ts"@, bad);
    law_fields_are_found(id, "node"@, bad);
    law_fields_are_found(id, "node"@, JsonView::Number(n));
    lemma_says_object(body, "lock"@, bad);
    lemma_says_object(body, "fence"@, bad);
    lemma_says_object(body, "req"@, id);
    lemma_says_object(id, "ts"@, bad);
    lemma_says_object(id, "node"@, bad);
    lemma_says_object(id, "node"@, JsonView::Number(n));
}

/// Only an object says something.
proof fn lemma_says_object(body: JsonView, name: Seq<char>, v: JsonView)
    ensures
        says(body, name, v) ==> body is Object,
{
    if says(body, name, v) {
        let i = choose|i: int| #[trigger] said_at(body, name, v, i);
        assert(body is Object);
    }
}

/// **What is no message is none.** A value that is no object, that has another number of
/// fields than one, or whose field is named for no kind, stands for nothing.
pub proof fn law_other_structures_are_none(v: JsonView)
    ensures
        !(v is Object) ==> message_in(v) is None,
        v matches JsonView::Object(fields) ==> (fields.len() != 1 ==> message_in(v) is None),
        v matches JsonView::Object(fields) ==> (fields.len() == 1 && variant_kind(fields[0].0)
            is None ==> message_in(v) is None),
{
}

/// **Codecs have names.** Each is found by its name in either case, MessagePack also by its
/// long name; any other name is none. A codec keeps every name of a lock, but for the empty
/// one in text, and for those that MessagePack cannot count.
pub proof fn law_codecs_have_names(s: Seq<char>, line: Seq<char>, m: MessageView)
    ensures
        WireCodec::Text.name() == "text"@,
        WireCodec::Json.name() == "json"@,
        WireCodec::Msgpack.name() == "msgpack"@,
        WireCodec::named(s) == Some(WireCodec::Text) <==> crate::text::lower(s) == "text"@,
        WireCodec::named(s) == Some(WireCodec::Json) <==> crate::text::lower(s) == "json"@,
        WireCodec::named(s) == Some(WireCodec::Msgpack) <==> crate::text::lower(s) == "msgpack"@
            || crate::text::lower(s) == "messagepack"@,
        WireCodec::Text.writes(m) == text_line(m),
        WireCodec::Json.writes(m) == json_text(named_message(m)),
        WireCodec::Msgpack.writes(m) == hex_text(msgpack_bytes(compact_message(m))),
        WireCodec::Text.keeps(s) <==> s.len() > 0,
        WireCodec::Json.keeps(s),
        WireCodec::Msgpack.keeps(s) <==> encode_utf8(s).len() < 0x1_0000_0000,
        WireCodec::Text.reads(line) == text_message(line),
        json_value(line) matches Some(v) ==> WireCodec::Json.reads(line) == message_in(v),
        json_value(line) is None ==> WireCodec::Json.reads(line) is None,
        hex_bytes(encode_utf8(line)) is None ==> WireCodec::Msgpack.reads(line) is None,
        hex_bytes(encode_utf8(line)) matches Some(bytes) ==> match msgpack_value(bytes) {
            Some(v) => WireCodec::Msgpack.reads(line) == message_in(v),
            None => WireCodec::Msgpack.reads(line) is None,
        },
{
    reveal_strlit("text");
    reveal_strlit("json");
    reveal_strlit("msgpack");
    reveal_strlit("messagepack");
    assert("text"@.len() == 4 && "json"@.len() == 4 && "msgpack"@.len() == 7
        && "messagepack"@.len() == 11);
    assert("text"@[0] == 't' && "json"@[0] == 'j');
}

// ---- the driver -----------------------------------------------------------------------------------
/// The node has become `n`: what it says is queued behind what is queued already, what it has
/// acquired and then what it has lost is reported, and it has nothing more to say.
pub open spec fn passes_on(d: DriverView, e: DriverView, n: NodeView) -> bool {
    &&& e.queue == d.queue + n.outbox
    &&& !e.flushing
    &&& e.pending == d.pending
    &&& e.connected == d.connected
    &&& e.stopped == d.stopped
    &&& e.node.outbox.len() == 0 && e.node.acquired.len() == 0 && e.node.lost.len() == 0
    &&& e.node.arbiter == n.arbiter && e.node.requester == n.requester
    &&& e.node.lamport == n.lamport && e.node.id == n.id && e.node.members == n.members
    &&& e.reports.len() == d.reports.len() + n.acquired.len() + n.lost.len()
    &&& forall|i: int| 0 <= i < d.reports.len() ==> #[trigger] e.reports[i] == d.reports[i]
    &&& forall|i: int|
        0 <= i < n.acquired.len() ==> #[trigger] e.reports[d.reports.len() + i]
            == NodeEventView::Acquired(n.acquired[i].0, n.acquired[i].1)
    &&& forall|i: int|
        0 <= i < n.lost.len() ==> #[trigger] e.reports[d.reports.len() + n.acquired.len() + i]
            == NodeEventView::Lost(n.lost[i])
}

/// **A driver passes on.** A message goes to the node, with its sender; a command to acquire
/// becomes the node's request, a command to release its release; and when time passes it
/// passes for the node. What the node then says is queued and reported.
pub proof fn law_drivers_pass_on(
    d: DriverView,
    now: Instant,
    from: NodeId,
    msg: MessageView,
    lock: Seq<char>,
)
    ensures
        passes_on(d, d.handle(now, EvView::In(from, msg)), d.node.handle(now, from, msg)),
        passes_on(
            d,
            d.handle(now, EvView::Cmd(CommandView::Acquire(lock))),
            d.node.request(now, lock),
        ),
        passes_on(
            d,
            d.handle(now, EvView::Cmd(CommandView::Release(lock))),
            d.node.release(lock),
        ),
        passes_on(d, d.handle(now, EvView::Tick), d.node.tick(now)),
{
}

/// **A command to shut down stops the driver**, and changes nothing else.
pub proof fn law_shutdown_stops(d: DriverView, now: Instant)
    ensures
        ({
            let e = d.handle(now, EvView::Cmd(CommandView::Shutdown));
            &&& e.stopped
            &&& e.node == d.node && e.queue == d.queue && e.pending == d.pending && e.reports
                == d.reports && e.connected == d.connected
        }),
        forall|n: NodeView|
            !(#[trigger] DriverView::fresh(n)).stopped && DriverView::fresh(n).queue.len() == 0
                && DriverView::fresh(n).pending.len() == 0 && DriverView::fresh(n).reports.len()
                == 0 && DriverView::fresh(n).node == n,
{
}

/// **A new driver** runs a node of a cluster with the numbers from zero on; nobody is
/// connected, and nothing is to be sent or reported.
pub proof fn law_new_drivers(id: NodeId, n: u32, policy: QuorumPolicy, i: int)
    requires
        0 <= i < n,
    ensures
        first_ids(n as nat).len() == n,
        first_ids(n as nat)[i] == i,
        ({
            let d = DriverView::fresh(NodeView::fresh(id, policy, first_ids(n as nat)));
            &&& d.node.id == id && d.node.policy == policy && d.node.members.len() == n
                && d.node.members[i] == i
            &&& d.connected == Set::<NodeId>::empty()
            &&& d.pending.len() == 0 && d.queue.len() == 0 && d.reports.len() == 0
            &&& !d.stopped && !d.flushing
        }),
{
}

/// What is kept of a list.
proof fn lemma_parted(out: Seq<OutgoingView>, p: NodeId, o: OutgoingView)
    ensures
        only_to(out, p).contains(o) <==> out.contains(o) && o.to == p,
        not_to(out, p).contains(o) <==> out.contains(o) && o.to != p,
    decreases out.len(),
{
    if out.len() > 0 {
        let init = out.drop_last();
        lemma_parted(init, p, o);
        let last = out.last();
        if out.contains(o) && !init.contains(o) {
            let i = out.index_of(o);
            if i < init.len() {
                assert(init[i] == o);
            }
        }
        if init.contains(o) {
            let i = init.index_of(o);
            assert(out[i] == o);
        }
        assert(out[out.len() - 1] == last);
        lemma_push_contains(only_to(init, p), last, o);
        lemma_push_contains(not_to(init, p), last, o);
    }
}

/// One more in a list.
proof fn lemma_push_contains(s: Seq<OutgoingView>, x: OutgoingView, o: OutgoingView)
    ensures
        s.push(x).contains(o) <==> s.contains(o) || x == o,
{
    let t = s.push(x);
    if s.contains(o) {
        let i = s.index_of(o);
        assert(t[i] == o);
    }
    if x == o {
        assert(t[s.len() as int] == o);
    }
    if t.contains(o) && x != o {
        let i = t.index_of(o);
        assert(s[i] == o);
    }
}

/// **A connection takes what waited for it.** It is known from then on and reported; what
/// waited for this peer is queued, and nothing else; what waits for others goes on waiting.
pub proof fn law_connections_take_what_waited(
    d: DriverView,
    now: Instant,
    peer: NodeId,
    o: OutgoingView,
)
    requires
        d.queue.len() == 0,
    ensures
        ({
            let e = d.handle(now, EvView::Conn(peer));
            &&& e.connected == d.connected.insert(peer)
            &&& e.flushing
            &&& e.node == d.node
            &&& e.queue.contains(o) <==> d.pending.contains(o) && o.to == peer
            &&& e.pending.contains(o) <==> d.pending.contains(o) && o.to != peer
            &&& e.reports == d.reports.push(
                NodeEventView::Info("connected to node "@ + decimal(peer as nat)),
            )
        }),
        d.disconnected(peer).connected == d.connected.remove(peer),
        d.disconnected(peer).pending == d.pending && d.disconnected(peer).node == d.node,
        d.disconnected(peer).queue == d.queue && d.disconnected(peer).reports == d.reports,
{
    lemma_parted(d.pending, peer, o);
    assert(d.queue + only_to(d.pending, peer) =~= only_to(d.pending, peer));
}

/// **What is first goes first.** A node's message to itself stays here, one to a connected
/// peer goes over the wire, and one to anybody else waits for a connection; but what waited
/// for a connection that has broken since is dropped.
pub proof fn law_what_is_first_goes_first(d: DriverView)
    requires
        d.queue.len() > 0,
    ensures
        ({
            let o = d.queue[0];
            let rest = DriverView { queue: d.queue.skip(1), ..d };
            &&& o.to == d.node.id ==> d.next_send() == (rest, Some(DeliveryView::Here(o.msg)))
            &&& o.to != d.node.id && d.connected.contains(o.to) ==> d.next_send() == (
                rest,
                Some(DeliveryView::Wire(o.to, o.msg)),
            )
            &&& o.to != d.node.id && !d.connected.contains(o.to) && !d.flushing ==> d.next_send()
                == (DriverView { pending: d.pending.push(o), ..rest }).next_send()
            &&& o.to != d.node.id && !d.connected.contains(o.to) && d.flushing ==> d.next_send()
                == rest.next_send()
        }),
        forall|e: DriverView|
            e.queue.len() == 0 ==> #[trigger] e.next_send() == (e, None::<DeliveryView>),
{
}

} // verus!
