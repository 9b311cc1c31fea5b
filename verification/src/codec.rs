//! Wire codecs for [`Message`].
//!
//! `Text` is a whitespace-separated line format with percent encoding for lock
//! names. `Json` and `Msgpack` are line formats for structured values;
//! MessagePack is hex-encoded so it can still ride on the line-oriented
//! transport. Each codec reads back what it writes.
use vstd::prelude::*;
use vstd::utf8::*;

use crate::json::{
    json_text, json_value, msgpack_bytes, msgpack_value, parse_json, parse_msgpack, push_field,
    push_item, render_json, render_msgpack, Json, JsonView, MAX_DEPTH,
};
use crate::text::{
    ascii_bytes, char_views, chars_are, chars_of, decimal, decimal_chars, hex_bytes, hex_char,
    hex_decode, hex_digit, hex_encode, hex_text, hex_val, hex_value, law_decimal_reads_back,
    law_hex_reads_back, lemma_ascii_bytes, lemma_decimal_no_white, lemma_words_one,
    lemma_words_push, lower, parse_number, parse_unsigned, push_chars, split_words, str_eq,
    string_from_utf8, string_of, to_lower, white, words,
};
use crate::types::{Message, MessageKind, MessageView, RequestId};

verus! {

// ---- percent encoding --------------------------------------------------------------
/// Whether a byte is a visible ASCII character other than `%`.
pub open spec fn stands_for_itself(b: u8) -> bool {
    33 <= b <= 126 && b != 37
}

/// How a byte of a lock name is written: as it is, or as `%` and two
/// hexadecimal digits.
pub open spec fn escape_byte(b: u8) -> Seq<char> {
    if stands_for_itself(b) {
        seq![b as char]
    } else {
        seq!['%', hex_char(b / 16), hex_char(b % 16)]
    }
}

/// How bytes are written.
pub open spec fn escape(bytes: Seq<u8>) -> Seq<char>
    decreases bytes.len(),
{
    if bytes.len() == 0 {
        Seq::empty()
    } else {
        escape(bytes.drop_last()) + escape_byte(bytes.last())
    }
}

/// Bytes before what follows, if anything follows.
pub open spec fn prepend(front: Seq<u8>, rest: Option<Seq<u8>>) -> Option<Seq<u8>> {
    match rest {
        Some(r) => Some(front + r),
        None => None,
    }
}

/// The bytes that escaped text (as bytes) stands for.
pub open spec fn unescape(s: Seq<u8>) -> Option<Seq<u8>>
    decreases s.len(),
{
    if s.len() == 0 {
        Some(Seq::empty())
    } else if s[0] != 37 {
        prepend(seq![s[0]], unescape(s.skip(1)))
    } else if s.len() < 3 {
        None
    } else {
        match (hex_val(s[1]), hex_val(s[2])) {
            (Some(hi), Some(lo)) => prepend(seq![(hi * 16 + lo) as u8], unescape(s.skip(3))),
            _ => None,
        }
    }
}

/// The lock name that a word stands for.
pub open spec fn unescaped_lock(word: Seq<char>) -> Option<Seq<char>> {
    match unescape(encode_utf8(word)) {
        Some(b) => if valid_utf8(b) {
            Some(decode_utf8(b))
        } else {
            None
        },
        None => None,
    }
}

fn encode_lock(lock: &str) -> (v: Vec<char>)
    ensures
        v@ == escape(encode_utf8(lock@)),
{
    let bytes = lock.as_bytes();
    let mut v: Vec<char> = Vec::new();
    let mut i: usize = 0;
    while i < bytes.len()
        invariant
            bytes@ == encode_utf8(lock@),
            i <= bytes@.len(),
            v@ == escape(bytes@.take(i as int)),
        decreases bytes@.len() - i,
    {
        let b = bytes[i];
        let ghost before = v@;
        if 33 <= b && b <= 126 && b != 37 {
            v.push(b as char);
        } else {
            v.push('%');
            v.push(hex_digit(b / 16));
            v.push(hex_digit(b % 16));
        }
        proof {
            assert(bytes@.take(i + 1).drop_last() =~= bytes@.take(i as int));
            assert(bytes@.take(i + 1).last() == b);
            assert(v@ =~= before + escape_byte(b));
        }
        i += 1;
    }
    assert(bytes@.take(i as int) =~= bytes@);
    v
}

fn decode_lock(encoded: &str) -> (r: Option<String>)
    ensures
        match r {
            Some(s) => unescaped_lock(encoded@) == Some(s@),
            None => unescaped_lock(encoded@) is None,
        },
{
    let bytes = encoded.as_bytes();
    let mut out: Vec<u8> = Vec::new();
    let mut i: usize = 0;
    assert(bytes@.skip(0) =~= bytes@);
    assert(prepend(out@, unescape(bytes@)) == unescape(bytes@)) by {
        if let Some(r) = unescape(bytes@) {
            assert(Seq::<u8>::empty() + r =~= r);
        }
    }
    while i < bytes.len()
        invariant
            bytes@ == encode_utf8(encoded@),
            i <= bytes@.len(),
            prepend(out@, unescape(bytes@.skip(i as int))) == unescape(bytes@),
        decreases bytes@.len() - i,
    {
        let ghost t = bytes@.skip(i as int);
        let ghost was = out@;
        if bytes[i] == 37 {
            if bytes.len() - i < 3 {
                return None;
            }
            match (hex_value(bytes[i + 1]), hex_value(bytes[i + 2])) {
                (Some(hi), Some(lo)) => {
                    out.push(hi * 16 + lo);
                },
                _ => {
                    return None;
                },
            }
            i += 3;
            assert(t.skip(3) =~= bytes@.skip(i as int));
        } else {
            out.push(bytes[i]);
            i += 1;
            assert(t.skip(1) =~= bytes@.skip(i as int));
        }
        proof {
            if let Some(r) = unescape(bytes@.skip(i as int)) {
                assert(out@ + r =~= was + (seq![out@.last()] + r));
            }
        }
    }
    proof {
        assert(bytes@.skip(i as int) =~= Seq::empty());
        assert(out@ + Seq::<u8>::empty() =~= out@);
    }
    string_from_utf8(out)
}

/// Escaped text is visible ASCII.
proof fn lemma_escape_visible(bytes: Seq<u8>)
    ensures
        forall|i: int|
            0 <= i < escape(bytes).len() ==> '!' <= #[trigger] escape(bytes)[i] <= '~',
        bytes.len() > 0 ==> escape(bytes).len() > 0,
    decreases bytes.len(),
{
    if bytes.len() > 0 {
        let init = escape(bytes.drop_last());
        let last = escape_byte(bytes.last());
        lemma_escape_visible(bytes.drop_last());
        assert forall|i: int| 0 <= i < escape(bytes).len() implies '!' <= #[trigger] escape(
            bytes,
        )[i] <= '~' by {
            if i < init.len() {
                assert(escape(bytes)[i] == init[i]);
            } else {
                assert(escape(bytes)[i] == last[i - init.len()]);
            }
        }
    }
}

/// Escaping from the front.
proof fn lemma_escape_front(bytes: Seq<u8>)
    requires
        bytes.len() > 0,
    ensures
        escape(bytes) == escape_byte(bytes[0]) + escape(bytes.skip(1)),
    decreases bytes.len(),
{
    if bytes.len() == 1 {
        assert(bytes.drop_last() =~= Seq::empty());
        assert(bytes.skip(1) =~= Seq::empty());
        assert(escape(bytes) =~= escape_byte(bytes[0]) + escape(bytes.skip(1)));
    } else {
        lemma_escape_front(bytes.drop_last());
        assert(bytes.drop_last().skip(1) =~= bytes.skip(1).drop_last());
        assert(escape(bytes) =~= escape_byte(bytes[0]) + escape(bytes.skip(1)));
    }
}

/// Escaped bytes read back.
proof fn lemma_unescape(bytes: Seq<u8>)
    ensures
        unescape(ascii_bytes(escape(bytes))) == Some(bytes),
    decreases bytes.len(),
{
    let t = ascii_bytes(escape(bytes));
    if bytes.len() == 0 {
        assert(t =~= Seq::empty());
        assert(bytes =~= Seq::empty());
    } else {
        let b = bytes[0];
        let rest = bytes.skip(1);
        lemma_escape_front(bytes);
        lemma_unescape(rest);
        let head = escape_byte(b);
        assert(seq![b] + rest =~= bytes);
        if stands_for_itself(b) {
            assert(head.len() == 1);
            assert(t[0] == b);
            assert(t.skip(1) =~= ascii_bytes(escape(rest)));
        } else {
            assert(head.len() == 3);
            assert(t[0] == 37);
            assert(t[1] == hex_char(b / 16) as u8);
            assert(t[2] == hex_char(b % 16) as u8);
            assert(t.skip(3) =~= ascii_bytes(escape(rest)));
        }
    }
}

/// **Lock names read back**, whatever characters they hold.
pub proof fn law_lock_names_read_back(lock: Seq<char>)
    ensures
        unescaped_lock(escape(encode_utf8(lock))) == Some(lock),
{
    let bytes = encode_utf8(lock);
    let s = escape(bytes);
    lemma_escape_visible(bytes);
    assert(is_ascii_chars(s)) by {
        assert forall|i: int| 0 <= i < s.len() implies '\0' <= #[trigger] s[i] <= '\u{7f}' by {}
    }
    lemma_ascii_bytes(s);
    lemma_unescape(bytes);
    encode_utf8_valid_utf8(lock);
    encode_utf8_decode_utf8(lock);
}

// ---- the text format ----------------------------------------------------------------
/// The word that names a kind of message.
pub open spec fn tag(kind: MessageKind) -> Seq<char> {
    match kind {
        MessageKind::Request => "REQUEST"@,
        MessageKind::Grant => "GRANT"@,
        MessageKind::Inquire => "INQUIRE"@,
        MessageKind::Yield => "YIELD"@,
        MessageKind::Confirm => "CONFIRM"@,
        MessageKind::Release => "RELEASE"@,
        MessageKind::Renew => "RENEW"@,
        MessageKind::Revoked => "REVOKED"@,
    }
}

/// The kind of message that a word names.
pub open spec fn tagged(word: Seq<char>) -> Option<MessageKind> {
    if word == "REQUEST"@ {
        Some(MessageKind::Request)
    } else if word == "GRANT"@ {
        Some(MessageKind::Grant)
    } else if word == "INQUIRE"@ {
        Some(MessageKind::Inquire)
    } else if word == "YIELD"@ {
        Some(MessageKind::Yield)
    } else if word == "CONFIRM"@ {
        Some(MessageKind::Confirm)
    } else if word == "RELEASE"@ {
        Some(MessageKind::Release)
    } else if word == "RENEW"@ {
        Some(MessageKind::Renew)
    } else if word == "REVOKED"@ {
        Some(MessageKind::Revoked)
    } else {
        None
    }
}

/// The line for a message: its tag, lock, timestamp, node and, if its kind has
/// one, fence token.
pub open spec fn text_line(m: MessageView) -> Seq<char> {
    let line = tag(m.kind).push(' ') + escape(encode_utf8(m.lock));
    let line = line.push(' ') + decimal(m.req.ts as nat);
    let line = line.push(' ') + decimal(m.req.node as nat);
    if m.kind.has_fence() {
        line.push(' ') + decimal(m.fence as nat)
    } else {
        line
    }
}

/// The message that a line stands for.
pub open spec fn text_message(line: Seq<char>) -> Option<MessageView> {
    let w = words(line);
    if w.len() < 4 {
        None
    } else {
        match (
            tagged(w[0]),
            unescaped_lock(w[1]),
            parse_number(w[2], u64::MAX as nat),
            parse_number(w[3], u32::MAX as nat),
        ) {
            (Some(kind), Some(lock), Some(ts), Some(node)) => {
                let req = RequestId { ts: ts as u64, node: node as u32 };
                if !kind.has_fence() && w.len() == 4 {
                    Some(MessageView { kind, lock, req, fence: 0 })
                } else if kind.has_fence() && w.len() == 5 {
                    match parse_number(w[4], u64::MAX as nat) {
                        Some(fence) => Some(MessageView { kind, lock, req, fence: fence as u64 }),
                        None => None,
                    }
                } else {
                    None
                }
            },
            _ => None,
        }
    }
}

fn tag_str(kind: MessageKind) -> (s: &'static str)
    ensures
        s@ == tag(kind),
{
    match kind {
        MessageKind::Request => "REQUEST",
        MessageKind::Grant => "GRANT",
        MessageKind::Inquire => "INQUIRE",
        MessageKind::Yield => "YIELD",
        MessageKind::Confirm => "CONFIRM",
        MessageKind::Release => "RELEASE",
        MessageKind::Renew => "RENEW",
        MessageKind::Revoked => "REVOKED",
    }
}

fn read_tag(word: &Vec<char>) -> (r: Option<MessageKind>)
    ensures
        r == tagged(word@),
{
    if chars_are(word, "REQUEST") {
        Some(MessageKind::Request)
    } else if chars_are(word, "GRANT") {
        Some(MessageKind::Grant)
    } else if chars_are(word, "INQUIRE") {
        Some(MessageKind::Inquire)
    } else if chars_are(word, "YIELD") {
        Some(MessageKind::Yield)
    } else if chars_are(word, "CONFIRM") {
        Some(MessageKind::Confirm)
    } else if chars_are(word, "RELEASE") {
        Some(MessageKind::Release)
    } else if chars_are(word, "RENEW") {
        Some(MessageKind::Renew)
    } else if chars_are(word, "REVOKED") {
        Some(MessageKind::Revoked)
    } else {
        None
    }
}

/// Encode a message with the whitespace-separated text format.
pub fn encode(msg: &Message) -> (s: String)
    ensures
        s@ == text_line(msg@),
{
    let kind = msg.kind();
    let req = msg.req();
    let mut v = chars_of(tag_str(kind));
    v.push(' ');
    push_chars(&mut v, &encode_lock(msg.lock().as_str()));
    v.push(' ');
    push_chars(&mut v, &decimal_chars(req.ts));
    v.push(' ');
    push_chars(&mut v, &decimal_chars(req.node as u64));
    match kind {
        MessageKind::Grant | MessageKind::Confirm | MessageKind::Release => {
            v.push(' ');
            push_chars(&mut v, &decimal_chars(msg.fence()));
        },
        _ => {},
    }
    string_of(&v)
}

/// Decode the text format, or `None` if it is malformed.
pub fn decode(line: &str) -> (r: Option<Message>)
    ensures
        match r {
            Some(m) => text_message(line@) == Some(m@),
            None => text_message(line@) is None,
        },
{
    let w = split_words(&chars_of(line));
    let ghost views = words(line@);
    assert forall|i: int| 0 <= i < w@.len() implies (#[trigger] w@[i])@ == views[i] by {
        assert(char_views(w@)[i] == w@[i]@);
    }
    if w.len() < 4 {
        return None;
    }
    let kind = match read_tag(&w[0]) {
        Some(k) => k,
        None => {
            return None;
        },
    };
    let lock = match decode_lock(string_of(&w[1]).as_str()) {
        Some(l) => l,
        None => {
            return None;
        },
    };
    let ts = match parse_unsigned(&w[2], u64::MAX) {
        Some(n) => n,
        None => {
            return None;
        },
    };
    let node = match parse_unsigned(&w[3], u32::MAX as u64) {
        Some(n) => n as u32,
        None => {
            return None;
        },
    };
    let req = RequestId { ts, node };
    let fence = match kind {
        MessageKind::Grant | MessageKind::Confirm | MessageKind::Release => {
            if w.len() != 5 {
                return None;
            }
            match parse_unsigned(&w[4], u64::MAX) {
                Some(n) => n,
                None => {
                    return None;
                },
            }
        },
        _ => {
            if w.len() != 4 {
                return None;
            }
            0
        },
    };
    let m = Message::from_parts(kind, lock, req, fence);
    assert(m@ =~= MessageView { kind, lock: lock@, req, fence });
    Some(m)
}

/// Tags are words, and read back.
proof fn lemma_tags(kind: MessageKind)
    ensures
        tag(kind).len() > 0,
        forall|i: int| 0 <= i < tag(kind).len() ==> !white(#[trigger] tag(kind)[i]),
        tagged(tag(kind)) == Some(kind),
{
    reveal_strlit("REQUEST");
    reveal_strlit("GRANT");
    reveal_strlit("INQUIRE");
    reveal_strlit("YIELD");
    reveal_strlit("CONFIRM");
    reveal_strlit("RELEASE");
    reveal_strlit("RENEW");
    reveal_strlit("REVOKED");
    assert("REQUEST"@[2] == 'Q');
    assert("RELEASE"@[2] == 'L');
    assert("RENEW"@[2] == 'N');
    assert("REVOKED"@[2] == 'V');
    assert("REQUEST"@[0] == 'R' && "RELEASE"@[0] == 'R' && "RENEW"@[0] == 'R' && "REVOKED"@[0]
        == 'R');
    assert("GRANT"@[0] == 'G' && "INQUIRE"@[0] == 'I' && "YIELD"@[0] == 'Y' && "CONFIRM"@[0]
        == 'C');
}

/// **Lines read back**: decoding the line of a message gives the message. The
/// lock needs a name that is not empty.
pub proof fn law_text_reads_back(m: MessageView)
    requires
        m.well_formed(),
        m.lock.len() > 0,
    ensures
        text_message(text_line(m)) == Some(m),
{
    let bytes = encode_utf8(m.lock);
    let word = escape(bytes);
    lemma_tags(m.kind);
    lemma_escape_visible(bytes);
    assert(bytes.len() > 0) by {
        if bytes.len() == 0 {
            crate::text::lemma_bytes_determine_chars(m.lock, Seq::empty());
        }
    }
    lemma_decimal_no_white(m.req.ts as nat);
    lemma_decimal_no_white(m.req.node as nat);
    lemma_decimal_no_white(m.fence as nat);
    let a = tag(m.kind);
    let b = a.push(' ') + word;
    let c = b.push(' ') + decimal(m.req.ts as nat);
    let d = c.push(' ') + decimal(m.req.node as nat);
    lemma_words_one(a);
    assert forall|i: int| 0 <= i < word.len() implies !white(#[trigger] word[i]) by {
        assert('!' <= word[i] <= '~');
    }
    lemma_words_push(a, word);
    lemma_words_push(b, decimal(m.req.ts as nat));
    lemma_words_push(c, decimal(m.req.node as nat));
    lemma_words_push(d, decimal(m.fence as nat));
    law_lock_names_read_back(m.lock);
    law_decimal_reads_back(m.req.ts as nat, u64::MAX as nat);
    law_decimal_reads_back(m.req.node as nat, u32::MAX as nat);
    law_decimal_reads_back(m.fence as nat, u64::MAX as nat);
    let w = words(text_line(m));
    assert(w[0] == a && w[1] == word);
}

// ---- structured values ----------------------------------------------------------------
/// The name of a kind of message in structured values.
pub open spec fn variant(kind: MessageKind) -> Seq<char> {
    match kind {
        MessageKind::Request => "Request"@,
        MessageKind::Grant => "Grant"@,
        MessageKind::Inquire => "Inquire"@,
        MessageKind::Yield => "Yield"@,
        MessageKind::Confirm => "Confirm"@,
        MessageKind::Release => "Release"@,
        MessageKind::Renew => "Renew"@,
        MessageKind::Revoked => "Revoked"@,
    }
}

/// The kind of message that a name stands for.
pub open spec fn variant_kind(name: Seq<char>) -> Option<MessageKind> {
    if name == "Request"@ {
        Some(MessageKind::Request)
    } else if name == "Grant"@ {
        Some(MessageKind::Grant)
    } else if name == "Inquire"@ {
        Some(MessageKind::Inquire)
    } else if name == "Yield"@ {
        Some(MessageKind::Yield)
    } else if name == "Confirm"@ {
        Some(MessageKind::Confirm)
    } else if name == "Release"@ {
        Some(MessageKind::Release)
    } else if name == "Renew"@ {
        Some(MessageKind::Renew)
    } else if name == "Revoked"@ {
        Some(MessageKind::Revoked)
    } else {
        None
    }
}

/// A request id with named fields.
pub open spec fn named_request(req: RequestId) -> JsonView {
    JsonView::Object(
        seq![
            ("ts"@, JsonView::Number(req.ts)),
            ("node"@, JsonView::Number(req.node as u64)),
        ],
    )
}

/// A message with named fields: one field, named for the kind, that holds the
/// rest.
pub open spec fn named_message(m: MessageView) -> JsonView {
    let plain = seq![("lock"@, JsonView::Str(m.lock)), ("req"@, named_request(m.req))];
    let body = if m.kind.has_fence() {
        plain.push(("fence"@, JsonView::Number(m.fence)))
    } else {
        plain
    };
    JsonView::Object(seq![(variant(m.kind), JsonView::Object(body))])
}

/// A message with its fields in order, without names.
pub open spec fn compact_message(m: MessageView) -> JsonView {
    let req = JsonView::Array(
        seq![JsonView::Number(m.req.ts), JsonView::Number(m.req.node as u64)],
    );
    let plain = seq![JsonView::Str(m.lock), req];
    let body = if m.kind.has_fence() {
        plain.push(JsonView::Number(m.fence))
    } else {
        plain
    };
    JsonView::Object(seq![(variant(m.kind), JsonView::Array(body))])
}

/// A part of a structure: by name, or by its place in a list of `len` parts.
pub open spec fn part(v: JsonView, name: Seq<char>, place: int, len: nat) -> Option<JsonView> {
    match v {
        JsonView::Object(_) => v.get(name),
        JsonView::Array(items) => if items.len() == len {
            Some(items[place])
        } else {
            None
        },
        _ => None,
    }
}

/// The request id in a structured value.
pub open spec fn request_in(v: JsonView) -> Option<RequestId> {
    match (part(v, "ts"@, 0, 2), part(v, "node"@, 1, 2)) {
        (Some(ts), Some(node)) => match (ts.number(u64::MAX as nat), node.number(u32::MAX as nat)) {
            (Some(ts), Some(node)) => Some(RequestId { ts, node: node as u32 }),
            _ => None,
        },
        _ => None,
    }
}

/// The message in a structured value: one field, named for the kind, with the
/// parts by name (more are ignored) or in a list.
pub open spec fn message_in(v: JsonView) -> Option<MessageView> {
    match v {
        JsonView::Object(fields) => if fields.len() == 1 {
            match variant_kind(fields[0].0) {
                Some(kind) => body_message(kind, fields[0].1),
                None => None,
            }
        } else {
            None
        },
        _ => None,
    }
}

/// The message of the given kind with the given parts.
pub open spec fn body_message(kind: MessageKind, body: JsonView) -> Option<MessageView> {
    let len: nat = if kind.has_fence() {
        3
    } else {
        2
    };
    match (part(body, "lock"@, 0, len), part(body, "req"@, 1, len)) {
        (Some(lock), Some(req)) => match (lock.text(), request_in(req)) {
            (Some(lock), Some(req)) => if kind.has_fence() {
                match part(body, "fence"@, 2, len) {
                    Some(fence) => match fence.number(u64::MAX as nat) {
                        Some(fence) => Some(MessageView { kind, lock, req, fence }),
                        None => None,
                    },
                    None => None,
                }
            } else {
                Some(MessageView { kind, lock, req, fence: 0 })
            },
            _ => None,
        },
        _ => None,
    }
}

/// The message in JSON text.
pub open spec fn json_message(text: Seq<char>) -> Option<MessageView> {
    match json_value(text) {
        Some(v) => message_in(v),
        None => None,
    }
}

/// The message in MessagePack bytes.
pub open spec fn msgpack_message(bytes: Seq<u8>) -> Option<MessageView> {
    match msgpack_value(bytes) {
        Some(v) => message_in(v),
        None => None,
    }
}

fn variant_str(kind: MessageKind) -> (s: &'static str)
    ensures
        s@ == variant(kind),
{
    match kind {
        MessageKind::Request => "Request",
        MessageKind::Grant => "Grant",
        MessageKind::Inquire => "Inquire",
        MessageKind::Yield => "Yield",
        MessageKind::Confirm => "Confirm",
        MessageKind::Release => "Release",
        MessageKind::Renew => "Renew",
        MessageKind::Revoked => "Revoked",
    }
}

fn read_variant(name: &str) -> (r: Option<MessageKind>)
    ensures
        r == variant_kind(name@),
{
    if str_eq(name, "Request") {
        Some(MessageKind::Request)
    } else if str_eq(name, "Grant") {
        Some(MessageKind::Grant)
    } else if str_eq(name, "Inquire") {
        Some(MessageKind::Inquire)
    } else if str_eq(name, "Yield") {
        Some(MessageKind::Yield)
    } else if str_eq(name, "Confirm") {
        Some(MessageKind::Confirm)
    } else if str_eq(name, "Release") {
        Some(MessageKind::Release)
    } else if str_eq(name, "Renew") {
        Some(MessageKind::Renew)
    } else if str_eq(name, "Revoked") {
        Some(MessageKind::Revoked)
    } else {
        None
    }
}

fn has_fence(kind: MessageKind) -> (b: bool)
    ensures
        b == kind.has_fence(),
{
    match kind {
        MessageKind::Grant | MessageKind::Confirm | MessageKind::Release => true,
        _ => false,
    }
}

fn to_named(msg: &Message) -> (v: Json)
    ensures
        v@ == named_message(msg@),
{
    let kind = msg.kind();
    let req = msg.req();
    let mut id: Vec<(String, Json)> = Vec::new();
    push_field(&mut id, "ts", Json::number(req.ts));
    push_field(&mut id, "node", Json::number(req.node as u64));
    let id = Json::object(id);
    assert(id@->Object_0 =~= named_request(req)->Object_0);
    let mut body: Vec<(String, Json)> = Vec::new();
    push_field(&mut body, "lock", Json::text(msg.lock().clone()));
    push_field(&mut body, "req", id);
    if has_fence(kind) {
        push_field(&mut body, "fence", Json::number(msg.fence()));
    }
    let body = Json::object(body);
    let ghost m = msg@;
    let ghost plain = seq![("lock"@, JsonView::Str(m.lock)), ("req"@, named_request(m.req))];
    assert(body@->Object_0 =~= if kind.has_fence() {
        plain.push(("fence"@, JsonView::Number(m.fence)))
    } else {
        plain
    });
    let mut outer: Vec<(String, Json)> = Vec::new();
    push_field(&mut outer, variant_str(kind), body);
    let v = Json::object(outer);
    assert(v@->Object_0 =~= named_message(m)->Object_0);
    v
}

fn to_compact(msg: &Message) -> (v: Json)
    ensures
        v@ == compact_message(msg@),
{
    let kind = msg.kind();
    let req = msg.req();
    let mut id: Vec<Json> = Vec::new();
    push_item(&mut id, Json::number(req.ts));
    push_item(&mut id, Json::number(req.node as u64));
    let id = Json::array(id);
    let ghost m = msg@;
    let ghost req_view = JsonView::Array(
        seq![JsonView::Number(m.req.ts), JsonView::Number(m.req.node as u64)],
    );
    assert(id@->Array_0 =~= req_view->Array_0);
    let mut body: Vec<Json> = Vec::new();
    push_item(&mut body, Json::text(msg.lock().clone()));
    push_item(&mut body, id);
    if has_fence(kind) {
        push_item(&mut body, Json::number(msg.fence()));
    }
    let body = Json::array(body);
    let ghost plain = seq![JsonView::Str(m.lock), req_view];
    assert(body@->Array_0 =~= if kind.has_fence() {
        plain.push(JsonView::Number(m.fence))
    } else {
        plain
    });
    let mut outer: Vec<(String, Json)> = Vec::new();
    push_field(&mut outer, variant_str(kind), body);
    let v = Json::object(outer);
    assert(v@->Object_0 =~= compact_message(m)->Object_0);
    v
}

fn find_part<'a>(v: &'a Json, name: &str, place: usize, len: usize) -> (r: Option<&'a Json>)
    requires
        place < len,
    ensures
        match r {
            Some(p) => part(v@, name@, place as int, len as nat) == Some(p@),
            None => part(v@, name@, place as int, len as nat) is None,
        },
{
    match v {
        Json::Object(_) => v.get(name),
        Json::Array(items) => {
            if items.len() == len {
                assert(v@->Array_0[place as int] == items@[place as int]@);
                Some(&items[place])
            } else {
                None
            }
        },
        _ => None,
    }
}

fn read_request(v: &Json) -> (r: Option<RequestId>)
    ensures
        r == request_in(v@),
{
    match (find_part(v, "ts", 0, 2), find_part(v, "node", 1, 2)) {
        (Some(ts), Some(node)) => match (ts.as_number(u64::MAX), node.as_number(u32::MAX as u64)) {
            (Some(ts), Some(node)) => Some(RequestId { ts, node: node as u32 }),
            _ => None,
        },
        _ => None,
    }
}

fn read_message(v: &Json) -> (r: Option<Message>)
    ensures
        match r {
            Some(m) => message_in(v@) == Some(m@),
            None => message_in(v@) is None,
        },
{
    let fields = match v {
        Json::Object(fields) => fields,
        _ => {
            return None;
        },
    };
    if fields.len() != 1 {
        return None;
    }
    assert(v@->Object_0[0] == (fields@[0].0@, fields@[0].1@));
    let kind = match read_variant(fields[0].0.as_str()) {
        Some(k) => k,
        None => {
            return None;
        },
    };
    let body = &fields[0].1;
    let fenced = has_fence(kind);
    let len: usize = if fenced {
        3
    } else {
        2
    };
    let (lock, req) = match (find_part(body, "lock", 0, len), find_part(body, "req", 1, len)) {
        (Some(lock), Some(req)) => match (lock.as_text(), read_request(req)) {
            (Some(lock), Some(req)) => (lock.clone(), req),
            _ => {
                return None;
            },
        },
        _ => {
            return None;
        },
    };
    let fence: u64 = if fenced {
        match find_part(body, "fence", 2, len) {
            Some(fence) => match fence.as_number(u64::MAX) {
                Some(fence) => fence,
                None => {
                    return None;
                },
            },
            None => {
                return None;
            },
        }
    } else {
        0
    };
    let m = Message::from_parts(kind, lock, req, fence);
    assert(m@ =~= MessageView { kind, lock: lock@, req, fence });
    Some(m)
}

/// The names of kinds read back and are short.
proof fn lemma_variants(kind: MessageKind)
    ensures
        variant_kind(variant(kind)) == Some(kind),
        variant(kind).len() <= 7,
        is_ascii_chars(variant(kind)),
{
    reveal_strlit("Request");
    reveal_strlit("Grant");
    reveal_strlit("Inquire");
    reveal_strlit("Yield");
    reveal_strlit("Confirm");
    reveal_strlit("Release");
    reveal_strlit("Renew");
    reveal_strlit("Revoked");
    assert("Request"@[2] == 'q');
    assert("Release"@[2] == 'l');
    assert("Renew"@[2] == 'n');
    assert("Revoked"@[2] == 'v');
    assert("Request"@[0] == 'R' && "Release"@[0] == 'R' && "Renew"@[0] == 'R' && "Revoked"@[0]
        == 'R');
    assert("Grant"@[0] == 'G' && "Inquire"@[0] == 'I' && "Yield"@[0] == 'Y' && "Confirm"@[0]
        == 'C');
}

/// The names of fields differ and are short.
proof fn lemma_field_names()
    ensures
        "lock"@ != "req"@,
        "lock"@ != "fence"@,
        "req"@ != "fence"@,
        "ts"@ != "node"@,
        is_ascii_chars("lock"@) && "lock"@.len() <= 7,
        is_ascii_chars("req"@) && "req"@.len() <= 7,
        is_ascii_chars("fence"@) && "fence"@.len() <= 7,
        is_ascii_chars("ts"@) && "ts"@.len() <= 7,
        is_ascii_chars("node"@) && "node"@.len() <= 7,
{
    reveal_strlit("lock");
    reveal_strlit("req");
    reveal_strlit("fence");
    reveal_strlit("ts");
    reveal_strlit("node");
    assert("lock"@.len() == 4 && "req"@.len() == 3 && "fence"@.len() == 5 && "ts"@.len() == 2);
    assert("node"@.len() == 4);
}

/// **Structures read back**, with named fields and without.
pub proof fn law_structures_read_back(m: MessageView)
    requires
        m.well_formed(),
    ensures
        message_in(named_message(m)) == Some(m),
        message_in(compact_message(m)) == Some(m),
{
    lemma_variants(m.kind);
    lemma_field_names();
    let id = named_request(m.req);
    crate::json::lemma_field_index(id->Object_0, "ts"@, 0);
    crate::json::lemma_field_index(id->Object_0, "node"@, 1);
    assert(request_in(id) == Some(m.req));
    let body = named_message(m)->Object_0[0].1;
    crate::json::lemma_field_index(body->Object_0, "lock"@, 0);
    crate::json::lemma_field_index(body->Object_0, "req"@, 1);
    if m.kind.has_fence() {
        crate::json::lemma_field_index(body->Object_0, "fence"@, 2);
    }
}

/// Structured messages are kept by text, and by bytes if the lock's name fits.
proof fn lemma_messages_keepable(m: MessageView)
    ensures
        named_message(m).keepable(MAX_DEPTH as nat),
        compact_message(m).keepable(MAX_DEPTH as nat),
        encode_utf8(m.lock).len() <= u32::MAX ==> compact_message(m).countable(),
{
    reveal_with_fuel(JsonView::keepable, 4);
    reveal_with_fuel(JsonView::countable, 4);
    lemma_variants(m.kind);
    lemma_field_names();
    is_ascii_chars_encode_utf8(variant(m.kind));
    is_ascii_chars_encode_utf8("lock"@);
    is_ascii_chars_encode_utf8("req"@);
    is_ascii_chars_encode_utf8("fence"@);
    is_ascii_chars_encode_utf8("ts"@);
    is_ascii_chars_encode_utf8("node"@);
}

/// Encode a message as one compact JSON value. It reads back.
pub fn encode_json(msg: &Message) -> (s: String)
    ensures
        s@ == json_text(named_message(msg@)),
        json_message(s@) == Some(msg@),
{
    let v = to_named(msg);
    proof {
        lemma_message_well_formed(msg);
        law_structures_read_back(msg@);
        lemma_messages_keepable(msg@);
    }
    render_json(&v)
}

/// Decode one JSON value into a message, or `None` if it is malformed. Of a field that is
/// given twice the last value counts; a field of no message is ignored.
pub fn decode_json(line: &str) -> (r: Option<Message>)
    ensures
        match r {
            Some(m) => json_message(line@) == Some(m@),
            None => json_message(line@) is None,
        },
{
    match parse_json(line) {
        Some(v) => read_message(&v),
        None => None,
    }
}

/// Encode a message as MessagePack bytes. It reads back, if the lock's name is
/// no longer than 32 bits can count.
pub fn encode_msgpack(msg: &Message) -> (bytes: Vec<u8>)
    ensures
        bytes@ == msgpack_bytes(compact_message(msg@)),
        encode_utf8(msg@.lock).len() <= u32::MAX ==> msgpack_message(bytes@) == Some(msg@),
{
    let v = to_compact(msg);
    proof {
        lemma_message_well_formed(msg);
        law_structures_read_back(msg@);
        lemma_messages_keepable(msg@);
    }
    render_msgpack(&v)
}

/// Decode MessagePack bytes into a message, or `None` if they are malformed. Names are
/// texts; of a field that is given twice the last value counts.
pub fn decode_msgpack(bytes: &[u8]) -> (r: Option<Message>)
    ensures
        match r {
            Some(m) => msgpack_message(bytes@) == Some(m@),
            None => msgpack_message(bytes@) is None,
        },
{
    match parse_msgpack(bytes) {
        Some(v) => read_message(&v),
        None => None,
    }
}

/// Every message's content is that of a message.
proof fn lemma_message_well_formed(msg: &Message)
    ensures
        msg@.well_formed(),
{
}

// ---- codecs ----------------------------------------------------------------------------
/// A line-oriented wire codec supported by the transport.
#[derive(Clone, Copy, Debug, PartialEq, Eq, Structural)]
pub enum WireCodec {
    Text,
    Json,
    Msgpack,
}

impl WireCodec {
    /// The codec that a name stands for, in either case.
    pub open spec fn named(s: Seq<char>) -> Option<WireCodec> {
        if lower(s) == "text"@ {
            Some(WireCodec::Text)
        } else if lower(s) == "json"@ {
            Some(WireCodec::Json)
        } else if lower(s) == "msgpack"@ || lower(s) == "messagepack"@ {
            Some(WireCodec::Msgpack)
        } else {
            None
        }
    }

    /// The message that a line stands for.
    pub open spec fn reads(self, line: Seq<char>) -> Option<MessageView> {
        match self {
            WireCodec::Text => text_message(line),
            WireCodec::Json => json_message(line),
            WireCodec::Msgpack => match hex_bytes(encode_utf8(line)) {
                Some(bytes) => msgpack_message(bytes),
                None => None,
            },
        }
    }

    /// The line for a message.
    pub open spec fn writes(self, m: MessageView) -> Seq<char> {
        match self {
            WireCodec::Text => text_line(m),
            WireCodec::Json => json_text(named_message(m)),
            WireCodec::Msgpack => hex_text(msgpack_bytes(compact_message(m))),
        }
    }

    pub fn parse(s: &str) -> (r: Option<WireCodec>)
        ensures
            r == WireCodec::named(s@),
    {
        let name = to_lower(s);
        if chars_are(&name, "text") {
            Some(WireCodec::Text)
        } else if chars_are(&name, "json") {
            Some(WireCodec::Json)
        } else if chars_are(&name, "msgpack") || chars_are(&name, "messagepack") {
            Some(WireCodec::Msgpack)
        } else {
            None
        }
    }

    /// The name of the codec.
    pub open spec fn name(self) -> Seq<char> {
        match self {
            WireCodec::Text => "text"@,
            WireCodec::Json => "json"@,
            WireCodec::Msgpack => "msgpack"@,
        }
    }

    /// A codec is found by its name, which is one word.
    pub proof fn lemma_name(self)
        ensures
            WireCodec::named(self.name()) == Some(self),
            self.name().len() > 0,
            forall|i: int| 0 <= i < self.name().len() ==> !white(#[trigger] self.name()[i]),
    {
        reveal_strlit("text");
        reveal_strlit("json");
        reveal_strlit("msgpack");
        assert("text"@[0] == 't');
        assert("json"@[0] == 'j');
        assert("msgpack"@[0] == 'm');
        assert(lower(self.name()) =~= self.name());
    }

    /// The name of the codec.
    pub fn as_str(self) -> (s: &'static str)
        ensures
            s@ == self.name(),
    {
        match self {
            WireCodec::Text => "text",
            WireCodec::Json => "json",
            WireCodec::Msgpack => "msgpack",
        }
    }

    /// Whether messages about `lock` read back: the text format knows no empty name, and
    /// MessagePack counts the bytes of a name in 32 bits.
    pub open spec fn keeps(self, lock: Seq<char>) -> bool {
        match self {
            WireCodec::Text => lock.len() > 0,
            WireCodec::Json => true,
            WireCodec::Msgpack => encode_utf8(lock).len() <= u32::MAX,
        }
    }

    /// The line for a message. Every codec reads its own lines back, for the names that it
    /// keeps.
    pub fn encode_line(self, msg: &Message) -> (s: String)
        ensures
            s@ == self.writes(msg@),
            self.keeps(msg@.lock) ==> self.reads(s@) == Some(msg@),
    {
        proof {
            lemma_message_well_formed(msg);
            if msg@.lock.len() > 0 {
                law_text_reads_back(msg@);
            }
        }
        match self {
            WireCodec::Text => encode(msg),
            WireCodec::Json => encode_json(msg),
            WireCodec::Msgpack => {
                let bytes = encode_msgpack(msg);
                proof {
                    law_hex_reads_back(bytes@);
                }
                string_of(&hex_encode(&bytes))
            },
        }
    }

    /// The message that a line stands for, or `None` if it is malformed.
    pub fn decode_line(self, line: &str) -> (r: Option<Message>)
        ensures
            match r {
                Some(m) => self.reads(line@) == Some(m@),
                None => self.reads(line@) is None,
            },
    {
        match self {
            WireCodec::Text => decode(line),
            WireCodec::Json => decode_json(line),
            WireCodec::Msgpack => match hex_decode(line) {
                Some(bytes) => decode_msgpack(bytes.as_slice()),
                None => None,
            },
        }
    }
}

} // verus!
