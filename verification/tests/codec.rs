use live_mutex_mills::codec::{decode, decode_json, decode_msgpack, WireCodec};
use live_mutex_mills::{Message, RequestId};


fn variants() -> Vec<Message> {
    let req = RequestId { ts: 7, node: 3 };
    vec![
        Message::Request {
            lock: "A".into(),
            req,
        },
        Message::Grant {
            lock: "lock-1".into(),
            req,
            fence: 42,
        },
        Message::Inquire {
            lock: "A".into(),
            req,
        },
        Message::Yield {
            lock: "A".into(),
            req,
        },
        Message::Confirm {
            lock: "A".into(),
            req,
            fence: 9,
        },
        Message::Release {
            lock: "A".into(),
            req,
            fence: 100,
        },
        Message::Renew {
            lock: "A".into(),
            req,
        },
        Message::Revoked {
            lock: "A".into(),
            req,
        },
    ]
}

#[test]
fn all_variants_roundtrip_in_all_wire_codecs() {
    for codec in [WireCodec::Text, WireCodec::Json, WireCodec::Msgpack] {
        for msg in variants() {
            assert_eq!(codec.decode_line(&codec.encode_line(&msg)), Some(msg));
        }
    }
}

#[test]
fn all_codecs_preserve_whitespace_in_lock_names() {
    let msg = Message::Request {
        lock: "tenant 7 / café % report A".into(),
        req: RequestId { ts: 1, node: 2 },
    };
    for codec in [WireCodec::Text, WireCodec::Json, WireCodec::Msgpack] {
        assert_eq!(
            codec.decode_line(&codec.encode_line(&msg)),
            Some(msg.clone())
        );
    }
}

#[test]
fn malformed_payloads_are_none() {
    assert_eq!(decode(""), None);
    assert_eq!(decode("WAT A 1 2"), None);
    assert_eq!(decode("GRANT A 1 2"), None);
    assert_eq!(decode("REQUEST A 1 2 trailing"), None);
    assert_eq!(decode("REQUEST bad%xx 1 2"), None);
    assert_eq!(decode("REQUEST bad% 1 2"), None);
    assert_eq!(
        decode_json(r#"{"Request":{"lock":"A","req":{"ts":1,"node":2}}} trailing"#),
        None
    );
    assert_eq!(decode_msgpack(&[0xC1]), None);
    assert_eq!(WireCodec::Msgpack.decode_line("abc"), None);
    assert_eq!(WireCodec::Msgpack.decode_line("not-hex"), None);
}

#[test]
fn parses_codec_names() {
    assert_eq!(WireCodec::parse("text"), Some(WireCodec::Text));
    assert_eq!(WireCodec::parse("TEXT"), Some(WireCodec::Text));
    assert_eq!(WireCodec::parse("json"), Some(WireCodec::Json));
    assert_eq!(WireCodec::parse("msgpack"), Some(WireCodec::Msgpack));
    assert_eq!(WireCodec::parse("messagepack"), Some(WireCodec::Msgpack));
    assert_eq!(WireCodec::parse("yaml"), None);
}

#[test]
fn json_and_messagepack_keep_the_empty_name() {
    let msg = Message::Release {
        lock: String::new(),
        req: RequestId { ts: u64::MAX, node: u32::MAX },
        fence: u64::MAX,
    };
    for codec in [WireCodec::Json, WireCodec::Msgpack] {
        assert_eq!(codec.decode_line(&codec.encode_line(&msg)), Some(msg.clone()));
    }
    assert_eq!(WireCodec::Text.decode_line(&WireCodec::Text.encode_line(&msg)), None);
}
