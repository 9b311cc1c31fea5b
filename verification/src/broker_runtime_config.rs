//! Typed configuration of the `lmxd` broker.
//!
//! Named flags win over positional arguments, which win over the environment;
//! defaults come last. Errors tell what is wrong with a setting without
//! repeating its value.
use vstd::prelude::*;

use crate::client_api::opt_view;
use crate::codec::WireCodec;
use crate::composite::{has_empty_key, key_views, Composite, MAX_COMPOSITE_KEYS};
use crate::json::{
    item_views, json_text, json_texts, json_value, pair_views, parse_json, parse_json_texts,
    push_item, render_json, Json, JsonView,
};
use crate::lock_map::{LockMap, Table};
use crate::node::lock_views;
use crate::quorum::QuorumPolicy;
use crate::text::{
    char_views, chars_are, chars_of, decimal, decimal_chars, find_last_char, find_white, has_white,
    last_position, lower, parse_number, parse_unsigned, push_chars, push_str, split, split_chars,
    str_eq, string_of, sub_chars, to_lower, trim, trim_chars, trim_start, trim_start_chars, white,
    word_end,
};
use crate::transport::{
    config_error, has_blank, Duration, TransportSettings, DEFAULT_CONNECT_RETRY_MS,
    DEFAULT_MAX_FRAME_BYTES, DEFAULT_TICK_MS,
};
use crate::types::{NodeId, RENEW_INTERVAL};

verus! {

/// How the broker is called.
pub const USAGE: &'static str = "usage: lmxd [--codec text|json|msgpack] [--client-http addr] [--client-tcp addr] <my_id> <addr_0> <addr_1> ... <addr_{n-1}>";

pub const ENV_CODEC: &'static str = "LMX_CODEC";

pub const ENV_NODE_ID: &'static str = "LMX_NODE_ID";

pub const ENV_PEER_ADDRS: &'static str = "LMX_PEER_ADDRS";

pub const ENV_CLIENT_HTTP: &'static str = "LMX_CLIENT_HTTP";

pub const ENV_CLIENT_TCP: &'static str = "LMX_CLIENT_TCP";

pub const ENV_STDIN: &'static str = "LMX_STDIN";

pub const ENV_LOG_INFO: &'static str = "LMX_LOG_INFO";

pub const ENV_CONNECT_RETRY_MS: &'static str = "LMX_CONNECT_RETRY_MS";

pub const ENV_TICK_MS: &'static str = "LMX_TICK_MS";

pub const ENV_MAX_FRAME_BYTES: &'static str = "LMX_MAX_FRAME_BYTES";

pub const ENV_QUORUM_POLICY: &'static str = "LMX_QUORUM_POLICY";

pub const ENV_DEMO: &'static str = "LMX_DEMO";

pub const ENV_DEMO_KEYS: &'static str = "LMX_DEMO_KEYS";

pub const ENV_DEMO_HOLD_MS: &'static str = "LMX_DEMO_HOLD_MS";

pub const ENV_DEMO_REST_MS: &'static str = "LMX_DEMO_REST_MS";

/// Under this name the command-line parser hands over positional arguments.
pub const ENV_POSITIONALS: &'static str = "LMX_POSITIONALS";

/// Under this name the command-line parser hands over unknown options.
pub const ENV_UNKNOWN_OPTIONS: &'static str = "LMX_UNKNOWN_OPTIONS";

/// Under this name the command-line parser hands over its complaints.
pub const ENV_PARSE_ERRORS: &'static str = "LMX_PARSE_ERRORS";

pub const ENV_LMX_CLI_FLAGS_CONFIG: &'static str = "LMX_CLI_FLAGS_CONFIG";

pub const ENV_FLAGS2ENV_CONFIG: &'static str = "FLAGS2ENV_CONFIG";

pub const DEFAULT_DEMO_KEYS: &'static str = "cap,mid,zed";

pub const DEFAULT_DEMO_HOLD_MS: u64 = 800;

pub const DEFAULT_DEMO_REST_MS: u64 = 400;

pub const MIN_CONNECT_RETRY_MS: u64 = 10;

pub const MAX_CONNECT_RETRY_MS: u64 = 60000;

pub const MIN_TICK_MS: u64 = 10;

pub const MIN_MAX_FRAME_BYTES: u64 = 128;

pub const MAX_MAX_FRAME_BYTES: u64 = 67108864;

pub const MAX_DEMO_DELAY_MS: u64 = 3600000;

/// Settings by name.
pub type Settings = LockMap<String>;

// ---- errors -----------------------------------------------------------------------------------
/// The path of a file, as `std` holds it.
#[verifier::external_type_specification]
#[verifier::external_body]
pub struct ExPathBuf(std::path::PathBuf);

/// Why reading or writing has failed, as `std` tells it.
#[verifier::external_type_specification]
#[verifier::external_body]
pub struct ExIoError(std::io::Error);

/// A text with a zero byte in it, which the command-line parser cannot take.
#[derive(Debug)]
pub struct NulError {
    /// Where the zero byte is.
    pub position: usize,
    /// The bytes of the text.
    pub bytes: Vec<u8>,
}

/// Why there is no configuration.
#[derive(Debug)]
pub enum BrokerRuntimeConfigError {
    /// Not an error: the text is to be shown.
    HelpRequested(String),
    CliFlagsConfigNotFound,
    ExplicitConfigMustBeAbsolute,
    ExplicitConfigUnreadable,
    CliFlagsConfigInvalid { path: std::path::PathBuf, report: String },
    CliParserCString(NulError),
    CliParserJson { raw: String, source: serde_json::Error },
    CliParseErrors(Vec<String>),
    UnknownCliOptions(Vec<String>),
    InvalidJsonList { env: &'static str, value: String },
    MissingNodeId,
    InvalidNodeId(String),
    MissingPeerAddrs,
    NodeIdOutOfRange { id: NodeId, peers: usize },
    InvalidCodec(String),
    InvalidQuorumPolicy(String),
    InvalidBool { env: &'static str, value: String },
    MissingCliValue(&'static str),
    InvalidPeerAddrs(String),
    InvalidSocketAddr { env: &'static str, value: String },
    InvalidNumber { env: &'static str, value: String },
    NumberOutOfRange { env: &'static str, value: u64, min: u64, max: u64 },
    InvalidDemoKeys(String),
    InvalidConfigFlag(String),
    EmbeddedCliFlagsWrite { path: std::path::PathBuf, source: std::io::Error },
    CurrentDir(std::io::Error),
}

/// The content of a [`BrokerRuntimeConfigError`]. Of text that is no JSON it leaves out
/// what `serde_json` says of it, which cannot be looked into.
pub enum ErrorView {
    HelpRequested(Seq<char>),
    CliFlagsConfigNotFound,
    ExplicitConfigMustBeAbsolute,
    ExplicitConfigUnreadable,
    CliFlagsConfigInvalid { path: std::path::PathBuf, report: Seq<char> },
    CliParserCString { position: usize, bytes: Seq<u8> },
    CliParserJson { raw: Seq<char> },
    CliParseErrors(Seq<Seq<char>>),
    UnknownCliOptions(Seq<Seq<char>>),
    InvalidJsonList { env: Seq<char>, value: Seq<char> },
    MissingNodeId,
    InvalidNodeId(Seq<char>),
    MissingPeerAddrs,
    NodeIdOutOfRange { id: NodeId, peers: usize },
    InvalidCodec(Seq<char>),
    InvalidQuorumPolicy(Seq<char>),
    InvalidBool { env: Seq<char>, value: Seq<char> },
    MissingCliValue(Seq<char>),
    InvalidPeerAddrs(Seq<char>),
    InvalidSocketAddr { env: Seq<char>, value: Seq<char> },
    InvalidNumber { env: Seq<char>, value: Seq<char> },
    NumberOutOfRange { env: Seq<char>, value: u64, min: u64, max: u64 },
    InvalidDemoKeys(Seq<char>),
    InvalidConfigFlag(Seq<char>),
    EmbeddedCliFlagsWrite { path: std::path::PathBuf, source: std::io::Error },
    CurrentDir(std::io::Error),
}

impl View for BrokerRuntimeConfigError {
    type V = ErrorView;

    open spec fn view(&self) -> ErrorView {
        match *self {
            BrokerRuntimeConfigError::HelpRequested(s) => ErrorView::HelpRequested(s@),
            BrokerRuntimeConfigError::CliFlagsConfigNotFound => ErrorView::CliFlagsConfigNotFound,
            BrokerRuntimeConfigError::ExplicitConfigMustBeAbsolute => {
                ErrorView::ExplicitConfigMustBeAbsolute
            },
            BrokerRuntimeConfigError::ExplicitConfigUnreadable => {
                ErrorView::ExplicitConfigUnreadable
            },
            BrokerRuntimeConfigError::CliFlagsConfigInvalid { path, report } => {
                ErrorView::CliFlagsConfigInvalid { path, report: report@ }
            },
            BrokerRuntimeConfigError::CliParserCString(e) => ErrorView::CliParserCString {
                position: e.position,
                bytes: e.bytes@,
            },
            BrokerRuntimeConfigError::CliParserJson { raw, source: _ } => {
                ErrorView::CliParserJson { raw: raw@ }
            },
            BrokerRuntimeConfigError::CliParseErrors(v) => ErrorView::CliParseErrors(
                lock_views(v@),
            ),
            BrokerRuntimeConfigError::UnknownCliOptions(v) => ErrorView::UnknownCliOptions(
                lock_views(v@),
            ),
            BrokerRuntimeConfigError::InvalidJsonList { env, value } => ErrorView::InvalidJsonList {
                env: env@,
                value: value@,
            },
            BrokerRuntimeConfigError::MissingNodeId => ErrorView::MissingNodeId,
            BrokerRuntimeConfigError::InvalidNodeId(s) => ErrorView::InvalidNodeId(s@),
            BrokerRuntimeConfigError::MissingPeerAddrs => ErrorView::MissingPeerAddrs,
            BrokerRuntimeConfigError::NodeIdOutOfRange { id, peers } => {
                ErrorView::NodeIdOutOfRange { id, peers }
            },
            BrokerRuntimeConfigError::InvalidCodec(s) => ErrorView::InvalidCodec(s@),
            BrokerRuntimeConfigError::InvalidQuorumPolicy(s) => ErrorView::InvalidQuorumPolicy(s@),
            BrokerRuntimeConfigError::InvalidBool { env, value } => ErrorView::InvalidBool {
                env: env@,
                value: value@,
            },
            BrokerRuntimeConfigError::MissingCliValue(s) => ErrorView::MissingCliValue(s@),
            BrokerRuntimeConfigError::InvalidPeerAddrs(s) => ErrorView::InvalidPeerAddrs(s@),
            BrokerRuntimeConfigError::InvalidSocketAddr { env, value } => {
                ErrorView::InvalidSocketAddr { env: env@, value: value@ }
            },
            BrokerRuntimeConfigError::InvalidNumber { env, value } => ErrorView::InvalidNumber {
                env: env@,
                value: value@,
            },
            BrokerRuntimeConfigError::NumberOutOfRange { env, value, min, max } => {
                ErrorView::NumberOutOfRange { env: env@, value, min, max }
            },
            BrokerRuntimeConfigError::InvalidDemoKeys(s) => ErrorView::InvalidDemoKeys(s@),
            BrokerRuntimeConfigError::InvalidConfigFlag(s) => ErrorView::InvalidConfigFlag(s@),
            BrokerRuntimeConfigError::EmbeddedCliFlagsWrite { path, source } => {
                ErrorView::EmbeddedCliFlagsWrite { path, source }
            },
            BrokerRuntimeConfigError::CurrentDir(e) => ErrorView::CurrentDir(e),
        }
    }
}

impl ErrorView {
    /// The message for people. It never repeats a value that was rejected.
    pub open spec fn message(self) -> Seq<char> {
        match self {
            ErrorView::HelpRequested(_) => "help requested"@,
            ErrorView::CliFlagsConfigNotFound => "reviewed broker CLI contract not found"@,
            ErrorView::ExplicitConfigMustBeAbsolute => {
                "broker CLI contract selector must be an absolute path"@
            },
            ErrorView::ExplicitConfigUnreadable => {
                "broker CLI contract selector does not name a readable regular file"@
            },
            ErrorView::CliFlagsConfigInvalid { .. } => {
                "reviewed broker CLI contract failed flags2env audit"@
            },
            ErrorView::CliParserCString { .. } => "broker CLI parser input is invalid"@,
            ErrorView::CliParserJson { .. } => "broker CLI parser returned invalid JSON"@,
            ErrorView::CliParseErrors(v) => "invalid CLI flag value(s) (count: "@ + decimal(v.len())
                + ")"@,
            ErrorView::UnknownCliOptions(v) => "unknown CLI option(s) (count: "@ + decimal(v.len())
                + ")"@,
            ErrorView::InvalidJsonList { env, .. } => env
                + " parser metadata is not a JSON string array"@,
            ErrorView::MissingNodeId => "missing broker node id"@,
            ErrorView::InvalidNodeId(_) => "broker node id must be a non-negative integer"@,
            ErrorView::MissingPeerAddrs => "missing broker peer address list"@,
            ErrorView::NodeIdOutOfRange { id, peers } => "broker node id "@ + decimal(id as nat)
                + " is outside the "@ + decimal(peers as nat) + "-peer address list"@,
            ErrorView::InvalidCodec(_) => "unknown codec; use text, json, or msgpack"@,
            ErrorView::InvalidQuorumPolicy(_) => "unknown quorum policy; use majority or grid"@,
            ErrorView::InvalidBool { env, .. } => env
                + " must be a boolean value (true/false, 1/0, yes/no, on/off)"@,
            ErrorView::MissingCliValue(flag) => "missing value after "@ + flag,
            ErrorView::InvalidPeerAddrs(_) => {
                "LMX_PEER_ADDRS must contain at least one valid address"@
            },
            ErrorView::InvalidSocketAddr { env, .. } => env
                + " must look like host:port with a valid TCP port"@,
            ErrorView::InvalidNumber { env, .. } => env + " must be a non-negative integer"@,
            ErrorView::NumberOutOfRange { env, value, min, max } => env + " must be between "@
                + decimal(min as nat) + " and "@ + decimal(max as nat) + ", got "@ + decimal(
                value as nat,
            ),
            ErrorView::InvalidDemoKeys(_) => {
                "LMX_DEMO_KEYS must contain at least one valid key when demo mode is enabled"@
            },
            ErrorView::InvalidConfigFlag(_) => {
                "invalid broker contract selector syntax; use --config <absolute-path> or --config=<absolute-path>"@
            },
            ErrorView::EmbeddedCliFlagsWrite { .. } => {
                "could not materialize the embedded broker CLI contract"@
            },
            ErrorView::CurrentDir(_) => "could not inspect a trusted broker CLI contract"@,
        }
    }

    /// The error with the rejected values left out.
    pub open spec fn redacted(self) -> ErrorView {
        let none = Seq::<char>::empty();
        match self {
            ErrorView::HelpRequested(_) => ErrorView::HelpRequested(none),
            ErrorView::CliParseErrors(v) => ErrorView::CliParseErrors(
                Seq::new(v.len(), |i: int| none),
            ),
            ErrorView::UnknownCliOptions(v) => ErrorView::UnknownCliOptions(
                Seq::new(v.len(), |i: int| none),
            ),
            ErrorView::InvalidJsonList { env, .. } => ErrorView::InvalidJsonList {
                env,
                value: none,
            },
            ErrorView::InvalidNodeId(_) => ErrorView::InvalidNodeId(none),
            ErrorView::InvalidCodec(_) => ErrorView::InvalidCodec(none),
            ErrorView::InvalidQuorumPolicy(_) => ErrorView::InvalidQuorumPolicy(none),
            ErrorView::InvalidBool { env, .. } => ErrorView::InvalidBool { env, value: none },
            ErrorView::InvalidPeerAddrs(_) => ErrorView::InvalidPeerAddrs(none),
            ErrorView::InvalidSocketAddr { env, .. } => ErrorView::InvalidSocketAddr {
                env,
                value: none,
            },
            ErrorView::InvalidNumber { env, .. } => ErrorView::InvalidNumber { env, value: none },
            ErrorView::InvalidDemoKeys(_) => ErrorView::InvalidDemoKeys(none),
            ErrorView::InvalidConfigFlag(_) => ErrorView::InvalidConfigFlag(none),
            ErrorView::CliFlagsConfigInvalid { .. } => ErrorView::CliFlagsConfigInvalid {
                path: arbitrary(),
                report: none,
            },
            ErrorView::CliParserCString { .. } => ErrorView::CliParserCString {
                position: 0,
                bytes: Seq::empty(),
            },
            ErrorView::CliParserJson { .. } => ErrorView::CliParserJson { raw: none },
            ErrorView::EmbeddedCliFlagsWrite { .. } => ErrorView::EmbeddedCliFlagsWrite {
                path: arbitrary(),
                source: arbitrary(),
            },
            ErrorView::CurrentDir(_) => ErrorView::CurrentDir(arbitrary()),
            e => e,
        }
    }
}

/// **Messages do not leak.** The message of an error is the same whatever text
/// was rejected.
pub proof fn law_messages_do_not_leak(a: ErrorView, b: ErrorView)
    requires
        a.redacted() == b.redacted(),
    ensures
        a.message() == b.message(),
{
    match (a, b) {
        (ErrorView::CliParseErrors(v), ErrorView::CliParseErrors(w)) => {
            assert(a.redacted()->CliParseErrors_0.len() == v.len());
            assert(b.redacted()->CliParseErrors_0.len() == w.len());
        },
        (ErrorView::UnknownCliOptions(v), ErrorView::UnknownCliOptions(w)) => {
            assert(a.redacted()->UnknownCliOptions_0.len() == v.len());
            assert(b.redacted()->UnknownCliOptions_0.len() == w.len());
        },
        _ => {},
    }
}

/// A label, a number and a label.
fn counted(front: &str, n: u64, back: &str) -> (s: String)
    ensures
        s@ == front@ + decimal(n as nat) + back@,
{
    let mut v = chars_of(front);
    push_chars(&mut v, &decimal_chars(n));
    push_str(&mut v, back);
    string_of(&v)
}

/// Two texts, one behind the other.
fn joined(a: &str, b: &str) -> (s: String)
    ensures
        s@ == a@ + b@,
{
    let mut v = chars_of(a);
    push_str(&mut v, b);
    string_of(&v)
}

impl BrokerRuntimeConfigError {
    /// The message for people. It never repeats a value that was rejected.
    pub fn to_string(&self) -> (s: String)
        ensures
            s@ == self@.message(),
    {
        match self {
            BrokerRuntimeConfigError::HelpRequested(_) => "help requested".to_owned(),
            BrokerRuntimeConfigError::CliFlagsConfigNotFound => {
                "reviewed broker CLI contract not found".to_owned()
            },
            BrokerRuntimeConfigError::ExplicitConfigMustBeAbsolute => {
                "broker CLI contract selector must be an absolute path".to_owned()
            },
            BrokerRuntimeConfigError::ExplicitConfigUnreadable => {
                "broker CLI contract selector does not name a readable regular file".to_owned()
            },
            BrokerRuntimeConfigError::CliFlagsConfigInvalid { .. } => {
                "reviewed broker CLI contract failed flags2env audit".to_owned()
            },
            BrokerRuntimeConfigError::CliParserCString(_) => {
                "broker CLI parser input is invalid".to_owned()
            },
            BrokerRuntimeConfigError::CliParserJson { .. } => {
                "broker CLI parser returned invalid JSON".to_owned()
            },
            BrokerRuntimeConfigError::CliParseErrors(v) => counted(
                "invalid CLI flag value(s) (count: ",
                v.len() as u64,
                ")",
            ),
            BrokerRuntimeConfigError::UnknownCliOptions(v) => counted(
                "unknown CLI option(s) (count: ",
                v.len() as u64,
                ")",
            ),
            BrokerRuntimeConfigError::InvalidJsonList { env, .. } => joined(
                env,
                " parser metadata is not a JSON string array",
            ),
            BrokerRuntimeConfigError::MissingNodeId => "missing broker node id".to_owned(),
            BrokerRuntimeConfigError::InvalidNodeId(_) => {
                "broker node id must be a non-negative integer".to_owned()
            },
            BrokerRuntimeConfigError::MissingPeerAddrs => {
                "missing broker peer address list".to_owned()
            },
            BrokerRuntimeConfigError::NodeIdOutOfRange { id, peers } => {
                let head = counted("broker node id ", *id as u64, " is outside the ");
                counted(head.as_str(), *peers as u64, "-peer address list")
            },
            BrokerRuntimeConfigError::InvalidCodec(_) => {
                "unknown codec; use text, json, or msgpack".to_owned()
            },
            BrokerRuntimeConfigError::InvalidQuorumPolicy(_) => {
                "unknown quorum policy; use majority or grid".to_owned()
            },
            BrokerRuntimeConfigError::InvalidBool { env, .. } => joined(
                env,
                " must be a boolean value (true/false, 1/0, yes/no, on/off)",
            ),
            BrokerRuntimeConfigError::MissingCliValue(flag) => joined("missing value after ", flag),
            BrokerRuntimeConfigError::InvalidPeerAddrs(_) => {
                "LMX_PEER_ADDRS must contain at least one valid address".to_owned()
            },
            BrokerRuntimeConfigError::InvalidSocketAddr { env, .. } => joined(
                env,
                " must look like host:port with a valid TCP port",
            ),
            BrokerRuntimeConfigError::InvalidNumber { env, .. } => joined(
                env,
                " must be a non-negative integer",
            ),
            BrokerRuntimeConfigError::NumberOutOfRange { env, value, min, max } => {
                let head = joined(env, " must be between ");
                let head = counted(head.as_str(), *min, " and ");
                let head = counted(head.as_str(), *max, ", got ");
                let mut v = chars_of(head.as_str());
                push_chars(&mut v, &decimal_chars(*value));
                string_of(&v)
            },
            BrokerRuntimeConfigError::InvalidDemoKeys(_) => {
                "LMX_DEMO_KEYS must contain at least one valid key when demo mode is enabled".to_owned()
            },
            BrokerRuntimeConfigError::InvalidConfigFlag(_) => {
                "invalid broker contract selector syntax; use --config <absolute-path> or --config=<absolute-path>".to_owned()
            },
            BrokerRuntimeConfigError::EmbeddedCliFlagsWrite { .. } => {
                "could not materialize the embedded broker CLI contract".to_owned()
            },
            BrokerRuntimeConfigError::CurrentDir(_) => {
                "could not inspect a trusted broker CLI contract".to_owned()
            },
        }
    }
}

/// An outcome with the content of its error.
pub open spec fn plain<T>(r: Result<T, BrokerRuntimeConfigError>) -> Result<T, ErrorView> {
    match r {
        Ok(x) => Ok(x),
        Err(e) => Err(e@),
    }
}

/// An outcome that is a list, with its content.
pub open spec fn listed(r: Result<Vec<String>, BrokerRuntimeConfigError>) -> Result<
    Seq<Seq<char>>,
    ErrorView,
> {
    match r {
        Ok(v) => Ok(lock_views(v@)),
        Err(e) => Err(e@),
    }
}

/// An outcome that may be a text, with its content.
pub open spec fn maybe_text(r: Result<Option<String>, BrokerRuntimeConfigError>) -> Result<
    Option<Seq<char>>,
    ErrorView,
> {
    match r {
        Ok(s) => Ok(opt_view(s)),
        Err(e) => Err(e@),
    }
}

// ---- lists --------------------------------------------------------------------------------------
/// The texts of a list, if it holds nothing else.
pub open spec fn all_texts(items: Seq<JsonView>) -> Option<Seq<Seq<char>>>
    decreases items.len(),
{
    if items.len() == 0 {
        Some(Seq::empty())
    } else {
        match (all_texts(items.drop_last()), items.last().text()) {
            (Some(texts), Some(s)) => Some(texts.push(s)),
            _ => None,
        }
    }
}

/// The list of texts that a value is, if it is one.
pub open spec fn text_list(v: Option<JsonView>) -> Option<Seq<Seq<char>>> {
    match v {
        Some(JsonView::Array(items)) => all_texts(items),
        _ => None,
    }
}

/// The parts without whitespace at their ends; blank ones are left out.
pub open spec fn cleaned(parts: Seq<Seq<char>>) -> Seq<Seq<char>>
    decreases parts.len(),
{
    if parts.len() == 0 {
        Seq::empty()
    } else {
        let rest = cleaned(parts.drop_last());
        if trim(parts.last()).len() == 0 {
            rest
        } else {
            rest.push(trim(parts.last()))
        }
    }
}

/// The parts of a text between commas.
pub open spec fn comma_list(raw: Seq<char>) -> Seq<Seq<char>> {
    cleaned(split(raw, ','))
}

/// Where one item is no text, the list is no list of texts.
proof fn lemma_all_texts_none(items: Seq<JsonView>, n: int)
    requires
        0 <= n <= items.len(),
        all_texts(items.take(n)) is None,
    ensures
        all_texts(items) is None,
    decreases items.len() - n,
{
    if n < items.len() {
        assert(items.take(n + 1).drop_last() =~= items.take(n));
        lemma_all_texts_none(items, n + 1);
    } else {
        assert(items.take(n) =~= items);
    }
}

/// The list of texts that a value is, if it is one.
fn as_text_list(v: &Json) -> (r: Option<Vec<String>>)
    ensures
        match r {
            Some(list) => text_list(Some(v@)) == Some(lock_views(list@)),
            None => text_list(Some(v@)) is None,
        },
{
    match v {
        Json::Array(items) => {
            let ghost views = v@->Array_0;
            let mut list: Vec<String> = Vec::new();
            let mut i: usize = 0;
            assert(views.take(0) =~= Seq::empty());
            assert(lock_views(list@) =~= Seq::empty());
            while i < items.len()
                invariant
                    *v == Json::Array(*items),
                    v@ == JsonView::Array(views),
                    views.len() == items@.len(),
                    i <= items@.len(),
                    all_texts(views.take(i as int)) == Some(lock_views(list@)),
                decreases items@.len() - i,
            {
                let ghost was = list@;
                proof {
                    assert(views[i as int] == items@[i as int]@);
                    assert(views.take(i + 1).drop_last() =~= views.take(i as int));
                    assert(views.take(i + 1).last() == views[i as int]);
                }
                match items[i].as_text() {
                    Some(s) => {
                        list.push(s.clone());
                        assert(lock_views(list@) =~= lock_views(was).push(s@));
                    },
                    None => {
                        proof {
                            lemma_all_texts_none(views, i + 1);
                        }
                        return None;
                    },
                }
                i += 1;
            }
            assert(views.take(i as int) =~= views);
            Some(list)
        },
        _ => None,
    }
}

/// The parts without whitespace at their ends; blank ones are left out.
fn clean(parts: &Vec<Vec<char>>) -> (list: Vec<String>)
    ensures
        lock_views(list@) == cleaned(char_views(parts@)),
{
    let ghost views = char_views(parts@);
    let mut list: Vec<String> = Vec::new();
    let mut i: usize = 0;
    assert(views.take(0) =~= Seq::empty());
    assert(lock_views(list@) =~= Seq::empty());
    while i < parts.len()
        invariant
            views == char_views(parts@),
            i <= parts@.len(),
            lock_views(list@) == cleaned(views.take(i as int)),
        decreases parts@.len() - i,
    {
        let ghost was = list@;
        proof {
            assert(views[i as int] == parts@[i as int]@);
            assert(views.take(i + 1).drop_last() =~= views.take(i as int));
            assert(views.take(i + 1).last() == views[i as int]);
        }
        let part = trim_chars(&parts[i]);
        if part.len() > 0 {
            list.push(string_of(&part));
            assert(lock_views(list@) =~= lock_views(was).push(part@));
        }
        i += 1;
    }
    assert(views.take(i as int) =~= views);
    list
}

/// The parts of a text between commas.
pub fn parse_csv_list(raw: &str) -> (list: Vec<String>)
    ensures
        lock_views(list@) == comma_list(raw@),
{
    clean(&split_chars(&chars_of(raw), ','))
}

/// A list that the command-line parser hands over.
pub open spec fn handed_over(cli: Table<Seq<char>>, key: Seq<char>) -> Result<
    Seq<Seq<char>>,
    ErrorView,
> {
    match cli.get(key) {
        None => Ok(Seq::empty()),
        Some(value) => match text_list(json_value(value)) {
            Some(list) => Ok(list),
            None => Err(ErrorView::InvalidJsonList { env: key, value: Seq::empty() }),
        },
    }
}

/// The positional arguments, if the command-line parser did not complain.
pub open spec fn positional_arguments(cli: Table<Seq<char>>) -> Result<
    Seq<Seq<char>>,
    ErrorView,
> {
    match handed_over(cli, ENV_PARSE_ERRORS@) {
        Err(e) => Err(e),
        Ok(errors) => if errors.len() > 0 {
            Err(ErrorView::CliParseErrors(errors))
        } else {
            match handed_over(cli, ENV_UNKNOWN_OPTIONS@) {
                Err(e) => Err(e),
                Ok(unknown) => if unknown.len() > 0 {
                    Err(ErrorView::UnknownCliOptions(unknown))
                } else {
                    handed_over(cli, ENV_POSITIONALS@)
                },
            }
        },
    }
}

/// An empty text.
fn no_text() -> (s: String)
    ensures
        s@ == Seq::<char>::empty(),
{
    let s = String::new();
    assert(s@ =~= Seq::empty());
    s
}

/// A list that the command-line parser hands over.
fn json_list(cli: &Settings, key: &'static str) -> (r: Result<Vec<String>, BrokerRuntimeConfigError>)
    requires
        cli.wf(),
    ensures
        listed(r) == handed_over(cli@, key@),
{
    match cli.find(key) {
        None => {
            let list: Vec<String> = Vec::new();
            assert(lock_views(list@) =~= Seq::empty());
            Ok(list)
        },
        Some(i) => {
            let list = match parse_json(cli.value(i).as_str()) {
                Some(v) => as_text_list(&v),
                None => None,
            };
            match list {
                Some(list) => Ok(list),
                None => Err(
                    BrokerRuntimeConfigError::InvalidJsonList { env: key, value: no_text() },
                ),
            }
        },
    }
}

/// The positional arguments, if the command-line parser did not complain.
fn find_positionals(cli: &Settings) -> (r: Result<Vec<String>, BrokerRuntimeConfigError>)
    requires
        cli.wf(),
    ensures
        listed(r) == positional_arguments(cli@),
{
    match json_list(cli, ENV_PARSE_ERRORS) {
        Err(e) => {
            return Err(e);
        },
        Ok(errors) => {
            if errors.len() > 0 {
                return Err(BrokerRuntimeConfigError::CliParseErrors(errors));
            }
        },
    }
    match json_list(cli, ENV_UNKNOWN_OPTIONS) {
        Err(e) => {
            return Err(e);
        },
        Ok(unknown) => {
            if unknown.len() > 0 {
                return Err(BrokerRuntimeConfigError::UnknownCliOptions(unknown));
            }
        },
    }
    json_list(cli, ENV_POSITIONALS)
}

// ---- single settings ------------------------------------------------------------------------------
/// The value of a setting, unless it is blank.
pub open spec fn filled(settings: Table<Seq<char>>, key: Seq<char>) -> Option<Seq<char>> {
    match settings.get(key) {
        Some(v) => if trim(v).len() > 0 {
            Some(trim(v))
        } else {
            None
        },
        None => None,
    }
}

/// The value of a setting: from the command line even if it is blank, else from
/// the environment.
pub open spec fn setting(cli: Table<Seq<char>>, env: Table<Seq<char>>, key: Seq<char>) -> Option<
    Seq<char>,
> {
    match cli.get(key) {
        Some(v) => Some(trim(v)),
        None => filled(env, key),
    }
}

/// The value of a setting; a blank one on the command line switches it off.
pub open spec fn optional(cli: Table<Seq<char>>, env: Table<Seq<char>>, key: Seq<char>) -> Option<
    Seq<char>,
> {
    if cli.map.contains_key(key) {
        filled(cli, key)
    } else {
        filled(env, key)
    }
}

/// The value of a setting, unless it is blank.
fn find_filled(settings: &Settings, key: &str) -> (r: Option<String>)
    requires
        settings.wf(),
    ensures
        opt_view(r) == filled(settings@, key@),
{
    match settings.find(key) {
        Some(i) => {
            let v = trim_chars(&chars_of(settings.value(i).as_str()));
            if v.len() > 0 {
                Some(string_of(&v))
            } else {
                None
            }
        },
        None => None,
    }
}

/// The value of a setting.
fn find_setting(cli: &Settings, env: &Settings, key: &str) -> (r: Option<String>)
    requires
        cli.wf(),
        env.wf(),
    ensures
        opt_view(r) == setting(cli@, env@, key@),
{
    match cli.find(key) {
        Some(i) => Some(string_of(&trim_chars(&chars_of(cli.value(i).as_str())))),
        None => find_filled(env, key),
    }
}

/// The value of a setting that can be switched off.
fn find_optional(cli: &Settings, env: &Settings, key: &str) -> (r: Option<String>)
    requires
        cli.wf(),
        env.wf(),
    ensures
        opt_view(r) == optional(cli@, env@, key@),
{
    if cli.find(key).is_some() {
        find_filled(cli, key)
    } else {
        find_filled(env, key)
    }
}

/// The codec that is set; text if none is.
pub open spec fn codec_setting(cli: Table<Seq<char>>, env: Table<Seq<char>>) -> Result<
    WireCodec,
    ErrorView,
> {
    match setting(cli, env, ENV_CODEC@) {
        None => Ok(WireCodec::Text),
        Some(raw) => match WireCodec::named(raw) {
            Some(codec) => Ok(codec),
            None => Err(ErrorView::InvalidCodec(raw)),
        },
    }
}

fn parse_codec(cli: &Settings, env: &Settings) -> (r: Result<WireCodec, BrokerRuntimeConfigError>)
    requires
        cli.wf(),
        env.wf(),
    ensures
        plain(r) == codec_setting(cli@, env@),
{
    match find_setting(cli, env, ENV_CODEC) {
        None => Ok(WireCodec::Text),
        Some(raw) => match WireCodec::parse(raw.as_str()) {
            Some(codec) => Ok(codec),
            None => Err(BrokerRuntimeConfigError::InvalidCodec(raw)),
        },
    }
}

/// The policy that is set; majority if none is.
pub open spec fn policy_setting(cli: Table<Seq<char>>, env: Table<Seq<char>>) -> Result<
    QuorumPolicy,
    ErrorView,
> {
    match setting(cli, env, ENV_QUORUM_POLICY@) {
        None => Ok(QuorumPolicy::Majority),
        Some(raw) => {
            let word = lower(raw);
            if word == "majority"@ || word == "maj"@ {
                Ok(QuorumPolicy::Majority)
            } else if word == "grid"@ || word == "sqrt"@ || word == "maekawa"@ {
                Ok(QuorumPolicy::Grid)
            } else {
                Err(ErrorView::InvalidQuorumPolicy(raw))
            }
        },
    }
}

fn parse_quorum_policy(cli: &Settings, env: &Settings) -> (r: Result<
    QuorumPolicy,
    BrokerRuntimeConfigError,
>)
    requires
        cli.wf(),
        env.wf(),
    ensures
        plain(r) == policy_setting(cli@, env@),
{
    match find_setting(cli, env, ENV_QUORUM_POLICY) {
        None => Ok(QuorumPolicy::Majority),
        Some(raw) => {
            let word = to_lower(raw.as_str());
            if chars_are(&word, "majority") || chars_are(&word, "maj") {
                Ok(QuorumPolicy::Majority)
            } else if chars_are(&word, "grid") || chars_are(&word, "sqrt") || chars_are(
                &word,
                "maekawa",
            ) {
                Ok(QuorumPolicy::Grid)
            } else {
                Err(BrokerRuntimeConfigError::InvalidQuorumPolicy(raw))
            }
        },
    }
}

/// The truth value that a text writes.
pub open spec fn truth_of(raw: Seq<char>) -> Option<bool> {
    let word = lower(trim(raw));
    if word == ""@ || word == "0"@ || word == "false"@ || word == "f"@ || word == "no"@ || word
        == "off"@ {
        Some(false)
    } else if word == "1"@ || word == "true"@ || word == "t"@ || word == "yes"@ || word == "on"@ {
        Some(true)
    } else {
        None
    }
}

/// The truth value that is set.
pub open spec fn bool_setting(
    cli: Table<Seq<char>>,
    env: Table<Seq<char>>,
    key: Seq<char>,
    default: bool,
) -> Result<bool, ErrorView> {
    match setting(cli, env, key) {
        None => Ok(default),
        Some(raw) => match truth_of(raw) {
            Some(b) => Ok(b),
            None => Err(ErrorView::InvalidBool { env: key, value: Seq::empty() }),
        },
    }
}

/// The truth value that a text writes.
pub fn parse_bool(raw: &str) -> (r: Option<bool>)
    ensures
        r == truth_of(raw@),
{
    let word = to_lower(string_of(&trim_chars(&chars_of(raw))).as_str());
    if chars_are(&word, "") || chars_are(&word, "0") || chars_are(&word, "false") || chars_are(
        &word,
        "f",
    ) || chars_are(&word, "no") || chars_are(&word, "off") {
        Some(false)
    } else if chars_are(&word, "1") || chars_are(&word, "true") || chars_are(&word, "t")
        || chars_are(&word, "yes") || chars_are(&word, "on") {
        Some(true)
    } else {
        None
    }
}

fn parse_bool_setting(cli: &Settings, env: &Settings, key: &'static str, default: bool) -> (r:
    Result<bool, BrokerRuntimeConfigError>)
    requires
        cli.wf(),
        env.wf(),
    ensures
        plain(r) == bool_setting(cli@, env@, key@, default),
{
    match find_setting(cli, env, key) {
        None => Ok(default),
        Some(raw) => match parse_bool(raw.as_str()) {
            Some(b) => Ok(b),
            None => Err(BrokerRuntimeConfigError::InvalidBool { env: key, value: no_text() }),
        },
    }
}

/// The number that is set, which must be within bounds.
pub open spec fn number_setting(
    cli: Table<Seq<char>>,
    env: Table<Seq<char>>,
    key: Seq<char>,
    default: u64,
    min: u64,
    max: u64,
) -> Result<u64, ErrorView> {
    match setting(cli, env, key) {
        None => Ok(default),
        Some(raw) => match parse_number(raw, u64::MAX as nat) {
            None => Err(ErrorView::InvalidNumber { env: key, value: Seq::empty() }),
            Some(n) => if n < min || n > max {
                Err(ErrorView::NumberOutOfRange { env: key, value: n as u64, min, max })
            } else {
                Ok(n as u64)
            },
        },
    }
}

fn parse_u64_setting(
    cli: &Settings,
    env: &Settings,
    key: &'static str,
    default: u64,
    min: u64,
    max: u64,
) -> (r: Result<u64, BrokerRuntimeConfigError>)
    requires
        cli.wf(),
        env.wf(),
    ensures
        plain(r) == number_setting(cli@, env@, key@, default, min, max),
{
    let raw = match find_setting(cli, env, key) {
        None => {
            return Ok(default);
        },
        Some(raw) => raw,
    };
    match parse_unsigned(&chars_of(raw.as_str()), u64::MAX) {
        None => Err(BrokerRuntimeConfigError::InvalidNumber { env: key, value: no_text() }),
        Some(value) => {
            if value < min || value > max {
                Err(BrokerRuntimeConfigError::NumberOutOfRange { env: key, value, min, max })
            } else {
                Ok(value)
            }
        },
    }
}

// ---- addresses ------------------------------------------------------------------------------------
/// Whether a text looks like `host:port` with a port that exists.
pub open spec fn socketish(s: Seq<char>) -> bool {
    let i = last_position(s, ':');
    &&& s.len() > 0
    &&& s[0] != '-'
    &&& s[0] != ':'
    &&& !has_white(s)
    &&& i > 0
    &&& parse_number(s.skip(i + 1), u16::MAX as nat) is Some
}

/// Whether a text looks like `host:port` with a port that exists.
pub fn is_socketish(s: &str) -> (b: bool)
    ensures
        b == socketish(s@),
{
    let v = chars_of(s);
    if v.len() == 0 || v[0] == '-' || v[0] == ':' {
        return false;
    }
    if find_white(&v) < v.len() {
        return false;
    }
    match find_last_char(&v, ':') {
        None => false,
        Some(i) => {
            if i == 0 {
                return false;
            }
            let port = sub_chars(&v, i + 1, v.len());
            assert(port@ =~= v@.skip(i + 1));
            parse_unsigned(&port, u16::MAX as u64).is_some()
        },
    }
}

/// Whether an address occurs before position `i` too.
pub open spec fn repeated(addrs: Seq<Seq<char>>, i: int) -> bool {
    exists|j: int| 0 <= j < i && #[trigger] addrs[j] == addrs[i]
}

/// What is wrong with the first `n` addresses; the first fault counts.
pub open spec fn addrs_fault(addrs: Seq<Seq<char>>, n: nat) -> Option<ErrorView>
    decreases n,
{
    if n == 0 {
        None
    } else {
        match addrs_fault(addrs, (n - 1) as nat) {
            Some(e) => Some(e),
            None => if !socketish(addrs[n - 1]) {
                Some(ErrorView::InvalidSocketAddr { env: ENV_PEER_ADDRS@, value: Seq::empty() })
            } else if repeated(addrs, n - 1) {
                Some(ErrorView::InvalidPeerAddrs(Seq::empty()))
            } else {
                None
            },
        }
    }
}

/// What is wrong with a list of addresses.
pub open spec fn peers_fault(addrs: Seq<Seq<char>>) -> Option<ErrorView> {
    if addrs.len() == 0 {
        Some(ErrorView::MissingPeerAddrs)
    } else {
        addrs_fault(addrs, addrs.len())
    }
}

/// A fault stays one, whatever follows.
proof fn lemma_fault_stays(addrs: Seq<Seq<char>>, i: nat, n: nat)
    requires
        i <= n,
        addrs_fault(addrs, i) is Some,
    ensures
        addrs_fault(addrs, n) == addrs_fault(addrs, i),
    decreases n,
{
    if i < n {
        lemma_fault_stays(addrs, i, (n - 1) as nat);
    }
}

/// Whether an address occurs before position `i` too.
fn is_repeated(addrs: &Vec<String>, i: usize) -> (b: bool)
    requires
        i < addrs@.len(),
    ensures
        b == repeated(lock_views(addrs@), i as int),
{
    let ghost views = lock_views(addrs@);
    let mut j: usize = 0;
    while j < i
        invariant
            views == lock_views(addrs@),
            j <= i < addrs@.len(),
            forall|k: int| 0 <= k < j ==> #[trigger] views[k] != views[i as int],
        decreases i - j,
    {
        assert(views[j as int] == addrs@[j as int]@);
        if str_eq(addrs[j].as_str(), addrs[i].as_str()) {
            return true;
        }
        j += 1;
    }
    false
}

/// Check a list of addresses.
fn validate_peer_addrs(addrs: &Vec<String>) -> (r: Result<(), BrokerRuntimeConfigError>)
    ensures
        match r {
            Ok(()) => peers_fault(lock_views(addrs@)) is None,
            Err(e) => peers_fault(lock_views(addrs@)) == Some(e@),
        },
{
    let ghost views = lock_views(addrs@);
    if addrs.len() == 0 {
        return Err(BrokerRuntimeConfigError::MissingPeerAddrs);
    }
    let mut i: usize = 0;
    while i < addrs.len()
        invariant
            views == lock_views(addrs@),
            addrs@.len() > 0,
            i <= addrs@.len(),
            addrs_fault(views, i as nat) is None,
        decreases addrs@.len() - i,
    {
        assert(views[i as int] == addrs@[i as int]@);
        let good = is_socketish(addrs[i].as_str());
        let again = is_repeated(addrs, i);
        if !good || again {
            proof {
                assert(addrs_fault(views, (i + 1) as nat) is Some);
                lemma_fault_stays(views, (i + 1) as nat, views.len());
            }
            if !good {
                return Err(
                    BrokerRuntimeConfigError::InvalidSocketAddr {
                        env: ENV_PEER_ADDRS,
                        value: no_text(),
                    },
                );
            }
            return Err(BrokerRuntimeConfigError::InvalidPeerAddrs(no_text()));
        }
        i += 1;
    }
    Ok(())
}

/// The addresses that a text lists: as a JSON list if it begins like one, else
/// between commas.
pub open spec fn addrs_in(raw: Seq<char>) -> Option<Seq<Seq<char>>> {
    let t = trim_start(raw);
    if t.len() > 0 && t[0] == '[' {
        match text_list(json_value(raw)) {
            Some(list) => Some(cleaned(list)),
            None => None,
        }
    } else {
        Some(comma_list(raw))
    }
}

/// The addresses that a text lists, if they are in order.
pub open spec fn peers_in(raw: Seq<char>) -> Result<Seq<Seq<char>>, ErrorView> {
    match addrs_in(raw) {
        None => Err(ErrorView::InvalidPeerAddrs(raw)),
        Some(addrs) => if addrs.len() == 0 {
            Err(ErrorView::InvalidPeerAddrs(raw))
        } else {
            match peers_fault(addrs) {
                Some(e) => Err(e),
                None => Ok(addrs),
            }
        },
    }
}

/// The texts without whitespace at their ends; blank ones are left out.
fn clean_texts(list: &Vec<String>) -> (r: Vec<String>)
    ensures
        lock_views(r@) == cleaned(lock_views(list@)),
{
    let ghost views = lock_views(list@);
    let mut parts: Vec<Vec<char>> = Vec::new();
    let mut i: usize = 0;
    assert(char_views(parts@) =~= views.take(0));
    while i < list.len()
        invariant
            views == lock_views(list@),
            i <= list@.len(),
            char_views(parts@) == views.take(i as int),
        decreases list@.len() - i,
    {
        let ghost was = parts@;
        let part = chars_of(list[i].as_str());
        parts.push(part);
        proof {
            assert(views[i as int] == list@[i as int]@);
            assert(char_views(parts@) =~= char_views(was).push(part@));
            assert(char_views(parts@) =~= views.take(i + 1));
        }
        i += 1;
    }
    assert(views.take(i as int) =~= views);
    clean(&parts)
}

/// The addresses that a text lists.
fn parse_peer_addrs(raw: &str) -> (r: Result<Vec<String>, BrokerRuntimeConfigError>)
    ensures
        listed(r) == peers_in(raw@),
{
    let v = chars_of(raw);
    let t = trim_start_chars(&v);
    let addrs = if t.len() > 0 && t[0] == '[' {
        let list = match parse_json(raw) {
            Some(value) => as_text_list(&value),
            None => None,
        };
        match list {
            Some(list) => clean_texts(&list),
            None => {
                return Err(BrokerRuntimeConfigError::InvalidPeerAddrs(raw.to_owned()));
            },
        }
    } else {
        parse_csv_list(raw)
    };
    if addrs.len() == 0 {
        return Err(BrokerRuntimeConfigError::InvalidPeerAddrs(raw.to_owned()));
    }
    match validate_peer_addrs(&addrs) {
        Err(e) => Err(e),
        Ok(()) => Ok(addrs),
    }
}

/// The address of a listener, if one is set.
pub open spec fn listener_setting(
    cli: Table<Seq<char>>,
    env: Table<Seq<char>>,
    key: Seq<char>,
) -> Result<Option<Seq<char>>, ErrorView> {
    match optional(cli, env, key) {
        None => Ok(None),
        Some(value) => if socketish(value) {
            Ok(Some(value))
        } else {
            Err(ErrorView::InvalidSocketAddr { env: key, value: Seq::empty() })
        },
    }
}

fn optional_socket_addr_setting(cli: &Settings, env: &Settings, key: &'static str) -> (r: Result<
    Option<String>,
    BrokerRuntimeConfigError,
>)
    requires
        cli.wf(),
        env.wf(),
    ensures
        maybe_text(r) == listener_setting(cli@, env@, key@),
{
    match find_optional(cli, env, key) {
        None => Ok(None),
        Some(value) => {
            if is_socketish(value.as_str()) {
                Ok(Some(value))
            } else {
                Err(BrokerRuntimeConfigError::InvalidSocketAddr { env: key, value: no_text() })
            }
        },
    }
}

/// The id of the node: by flag, as the first positional argument, or from the
/// environment.
pub open spec fn node_id_setting(
    cli: Table<Seq<char>>,
    env: Table<Seq<char>>,
    positionals: Seq<Seq<char>>,
) -> Result<NodeId, ErrorView> {
    let raw = match cli.get(ENV_NODE_ID@) {
        Some(v) => Some(trim(v)),
        None => if positionals.len() > 0 {
            Some(positionals[0])
        } else {
            filled(env, ENV_NODE_ID@)
        },
    };
    match raw {
        None => Err(ErrorView::MissingNodeId),
        Some(raw) => match parse_number(raw, u32::MAX as nat) {
            Some(id) => Ok(id as NodeId),
            None => Err(ErrorView::InvalidNodeId(raw)),
        },
    }
}

fn parse_node_id(cli: &Settings, env: &Settings, positionals: &Vec<String>) -> (r: Result<
    NodeId,
    BrokerRuntimeConfigError,
>)
    requires
        cli.wf(),
        env.wf(),
    ensures
        plain(r) == node_id_setting(cli@, env@, lock_views(positionals@)),
{
    let raw: Option<String> = match cli.find(ENV_NODE_ID) {
        Some(i) => Some(string_of(&trim_chars(&chars_of(cli.value(i).as_str())))),
        None => {
            if positionals.len() > 0 {
                assert(lock_views(positionals@)[0] == positionals@[0]@);
                Some(positionals[0].clone())
            } else {
                find_filled(env, ENV_NODE_ID)
            }
        },
    };
    match raw {
        None => Err(BrokerRuntimeConfigError::MissingNodeId),
        Some(raw) => match parse_unsigned(&chars_of(raw.as_str()), u32::MAX as u64) {
            Some(id) => Ok(id as NodeId),
            None => Err(BrokerRuntimeConfigError::InvalidNodeId(raw)),
        },
    }
}

/// The addresses of all nodes: by flag, as positional arguments behind the id,
/// or from the environment.
pub open spec fn peers_setting(
    cli: Table<Seq<char>>,
    env: Table<Seq<char>>,
    positionals: Seq<Seq<char>>,
) -> Result<Seq<Seq<char>>, ErrorView> {
    match cli.get(ENV_PEER_ADDRS@) {
        Some(raw) => peers_in(trim(raw)),
        None => if positionals.len() > 1 {
            match peers_fault(positionals.skip(1)) {
                Some(e) => Err(e),
                None => Ok(positionals.skip(1)),
            }
        } else {
            match filled(env, ENV_PEER_ADDRS@) {
                Some(raw) => peers_in(raw),
                None => Err(ErrorView::MissingPeerAddrs),
            }
        },
    }
}

fn find_peers(cli: &Settings, env: &Settings, positionals: Vec<String>) -> (r: Result<
    Vec<String>,
    BrokerRuntimeConfigError,
>)
    requires
        cli.wf(),
        env.wf(),
    ensures
        listed(r) == peers_setting(cli@, env@, lock_views(positionals@)),
{
    match cli.find(ENV_PEER_ADDRS) {
        Some(i) => {
            let raw = string_of(&trim_chars(&chars_of(cli.value(i).as_str())));
            parse_peer_addrs(raw.as_str())
        },
        None => {
            if positionals.len() > 1 {
                let ghost views = lock_views(positionals@);
                let mut addrs = positionals;
                let _ = addrs.remove(0);
                assert(lock_views(addrs@) =~= views.skip(1));
                match validate_peer_addrs(&addrs) {
                    Err(e) => Err(e),
                    Ok(()) => Ok(addrs),
                }
            } else {
                match find_filled(env, ENV_PEER_ADDRS) {
                    Some(raw) => parse_peer_addrs(raw.as_str()),
                    None => Err(BrokerRuntimeConfigError::MissingPeerAddrs),
                }
            }
        },
    }
}

// ---- the configuration ---------------------------------------------------------------------------
/// A workload that every node runs to show that the cluster works.
#[derive(Clone, Debug, PartialEq, Eq)]
pub struct BrokerDemoConfig {
    pub enabled: bool,
    pub keys: Vec<String>,
    pub hold: Duration,
    pub rest: Duration,
}

/// The content of a [`BrokerDemoConfig`].
#[verifier::ext_equal]
pub struct DemoView {
    pub enabled: bool,
    pub keys: Seq<Seq<char>>,
    pub hold: Duration,
    pub rest: Duration,
}

impl View for BrokerDemoConfig {
    type V = DemoView;

    open spec fn view(&self) -> DemoView {
        DemoView {
            enabled: self.enabled,
            keys: lock_views(self.keys@),
            hold: self.hold,
            rest: self.rest,
        }
    }
}

impl Default for BrokerDemoConfig {
    fn default() -> (d: BrokerDemoConfig)
        ensures
            d@ == (DemoView {
                enabled: false,
                keys: comma_list(DEFAULT_DEMO_KEYS@),
                hold: Duration { millis: DEFAULT_DEMO_HOLD_MS },
                rest: Duration { millis: DEFAULT_DEMO_REST_MS },
            }),
    {
        BrokerDemoConfig {
            enabled: false,
            keys: parse_csv_list(DEFAULT_DEMO_KEYS),
            hold: Duration::from_millis(DEFAULT_DEMO_HOLD_MS),
            rest: Duration::from_millis(DEFAULT_DEMO_REST_MS),
        }
    }
}

/// The configuration of a broker.
#[derive(Clone, Debug, PartialEq, Eq)]
pub struct BrokerRuntimeConfig {
    pub id: NodeId,
    pub addrs: Vec<String>,
    pub codec: WireCodec,
    pub client_http: Option<String>,
    pub client_tcp: Option<String>,
    pub stdin: bool,
    pub log_info: bool,
    pub transport: TransportSettings,
    pub demo: BrokerDemoConfig,
}

/// The content of a [`BrokerRuntimeConfig`].
#[verifier::ext_equal]
pub struct ConfigView {
    pub id: NodeId,
    pub addrs: Seq<Seq<char>>,
    pub codec: WireCodec,
    pub client_http: Option<Seq<char>>,
    pub client_tcp: Option<Seq<char>>,
    pub stdin: bool,
    pub log_info: bool,
    pub transport: TransportSettings,
    pub demo: DemoView,
}

impl View for BrokerRuntimeConfig {
    type V = ConfigView;

    open spec fn view(&self) -> ConfigView {
        ConfigView {
            id: self.id,
            addrs: lock_views(self.addrs@),
            codec: self.codec,
            client_http: opt_view(self.client_http),
            client_tcp: opt_view(self.client_tcp),
            stdin: self.stdin,
            log_info: self.log_info,
            transport: self.transport,
            demo: self.demo@,
        }
    }
}

/// The settings of the transport, with the given codec.
pub open spec fn transport_setting(
    cli: Table<Seq<char>>,
    env: Table<Seq<char>>,
    codec: WireCodec,
) -> Result<TransportSettings, ErrorView> {
    match number_setting(
        cli,
        env,
        ENV_CONNECT_RETRY_MS@,
        DEFAULT_CONNECT_RETRY_MS,
        MIN_CONNECT_RETRY_MS,
        MAX_CONNECT_RETRY_MS,
    ) {
        Err(e) => Err(e),
        Ok(retry) => match number_setting(
            cli,
            env,
            ENV_TICK_MS@,
            DEFAULT_TICK_MS,
            MIN_TICK_MS,
            RENEW_INTERVAL,
        ) {
            Err(e) => Err(e),
            Ok(tick) => match number_setting(
                cli,
                env,
                ENV_MAX_FRAME_BYTES@,
                DEFAULT_MAX_FRAME_BYTES as u64,
                MIN_MAX_FRAME_BYTES,
                MAX_MAX_FRAME_BYTES,
            ) {
                Err(e) => Err(e),
                Ok(frame) => match policy_setting(cli, env) {
                    Err(e) => Err(e),
                    Ok(quorum_policy) => Ok(
                        TransportSettings {
                            codec,
                            connect_retry: Duration { millis: retry },
                            tick: Duration { millis: tick },
                            max_line_frame: frame as usize,
                            quorum_policy,
                        },
                    ),
                },
            },
        },
    }
}

fn parse_transport(cli: &Settings, env: &Settings, codec: WireCodec) -> (r: Result<
    TransportSettings,
    BrokerRuntimeConfigError,
>)
    requires
        cli.wf(),
        env.wf(),
    ensures
        plain(r) == transport_setting(cli@, env@, codec),
{
    let retry = match parse_u64_setting(
        cli,
        env,
        ENV_CONNECT_RETRY_MS,
        DEFAULT_CONNECT_RETRY_MS,
        MIN_CONNECT_RETRY_MS,
        MAX_CONNECT_RETRY_MS,
    ) {
        Ok(n) => n,
        Err(e) => {
            return Err(e);
        },
    };
    let tick = match parse_u64_setting(
        cli,
        env,
        ENV_TICK_MS,
        DEFAULT_TICK_MS,
        MIN_TICK_MS,
        RENEW_INTERVAL,
    ) {
        Ok(n) => n,
        Err(e) => {
            return Err(e);
        },
    };
    let frame = match parse_u64_setting(
        cli,
        env,
        ENV_MAX_FRAME_BYTES,
        DEFAULT_MAX_FRAME_BYTES as u64,
        MIN_MAX_FRAME_BYTES,
        MAX_MAX_FRAME_BYTES,
    ) {
        Ok(n) => n,
        Err(e) => {
            return Err(e);
        },
    };
    match parse_quorum_policy(cli, env) {
        Err(e) => Err(e),
        Ok(quorum_policy) => Ok(
            TransportSettings {
                codec,
                connect_retry: Duration::from_millis(retry),
                tick: Duration::from_millis(tick),
                max_line_frame: frame as usize,
                quorum_policy,
            },
        ),
    }
}

/// Whether keys can be acquired together.
pub open spec fn keys_fit(keys: Seq<Seq<char>>) -> bool {
    &&& keys.len() > 0
    &&& !has_empty_key(keys)
    &&& keys.to_set().len() <= MAX_COMPOSITE_KEYS
}

/// The keys of the workload.
pub open spec fn demo_keys(cli: Table<Seq<char>>, env: Table<Seq<char>>) -> Seq<Seq<char>> {
    match setting(cli, env, ENV_DEMO_KEYS@) {
        Some(raw) => comma_list(raw),
        None => comma_list(DEFAULT_DEMO_KEYS@),
    }
}

/// The settings of the workload.
pub open spec fn demo_setting(cli: Table<Seq<char>>, env: Table<Seq<char>>) -> Result<
    DemoView,
    ErrorView,
> {
    match bool_setting(cli, env, ENV_DEMO@, false) {
        Err(e) => Err(e),
        Ok(enabled) => if enabled && !keys_fit(demo_keys(cli, env)) {
            Err(ErrorView::InvalidDemoKeys(Seq::empty()))
        } else {
            match number_setting(
                cli,
                env,
                ENV_DEMO_HOLD_MS@,
                DEFAULT_DEMO_HOLD_MS,
                1,
                MAX_DEMO_DELAY_MS,
            ) {
                Err(e) => Err(e),
                Ok(hold) => match number_setting(
                    cli,
                    env,
                    ENV_DEMO_REST_MS@,
                    DEFAULT_DEMO_REST_MS,
                    1,
                    MAX_DEMO_DELAY_MS,
                ) {
                    Err(e) => Err(e),
                    Ok(rest) => Ok(
                        DemoView {
                            enabled,
                            keys: demo_keys(cli, env),
                            hold: Duration { millis: hold },
                            rest: Duration { millis: rest },
                        },
                    ),
                },
            }
        },
    }
}

/// An outcome that is a workload, with its content.
pub open spec fn demo_view(r: Result<BrokerDemoConfig, BrokerRuntimeConfigError>) -> Result<
    DemoView,
    ErrorView,
> {
    match r {
        Ok(d) => Ok(d@),
        Err(e) => Err(e@),
    }
}

fn parse_demo(cli: &Settings, env: &Settings) -> (r: Result<
    BrokerDemoConfig,
    BrokerRuntimeConfigError,
>)
    requires
        cli.wf(),
        env.wf(),
    ensures
        demo_view(r) == demo_setting(cli@, env@),
{
    let enabled = match parse_bool_setting(cli, env, ENV_DEMO, false) {
        Ok(b) => b,
        Err(e) => {
            return Err(e);
        },
    };
    let keys = match find_setting(cli, env, ENV_DEMO_KEYS) {
        Some(raw) => parse_csv_list(raw.as_str()),
        None => parse_csv_list(DEFAULT_DEMO_KEYS),
    };
    if enabled {
        assert(key_views(keys@) =~= lock_views(keys@));
        match Composite::new(keys.as_slice()) {
            Ok(_) => {},
            Err(_) => {
                return Err(BrokerRuntimeConfigError::InvalidDemoKeys(no_text()));
            },
        }
    }
    let hold = match parse_u64_setting(
        cli,
        env,
        ENV_DEMO_HOLD_MS,
        DEFAULT_DEMO_HOLD_MS,
        1,
        MAX_DEMO_DELAY_MS,
    ) {
        Ok(n) => n,
        Err(e) => {
            return Err(e);
        },
    };
    let rest = match parse_u64_setting(
        cli,
        env,
        ENV_DEMO_REST_MS,
        DEFAULT_DEMO_REST_MS,
        1,
        MAX_DEMO_DELAY_MS,
    ) {
        Ok(n) => n,
        Err(e) => {
            return Err(e);
        },
    };
    Ok(
        BrokerDemoConfig {
            enabled,
            keys,
            hold: Duration::from_millis(hold),
            rest: Duration::from_millis(rest),
        },
    )
}

/// The settings that do not depend on the node's place in the cluster.
pub open spec fn general_settings(
    cli: Table<Seq<char>>,
    env: Table<Seq<char>>,
    codec: WireCodec,
    id: NodeId,
    addrs: Seq<Seq<char>>,
) -> Result<ConfigView, ErrorView> {
    match listener_setting(cli, env, ENV_CLIENT_HTTP@) {
        Err(e) => Err(e),
        Ok(client_http) => match listener_setting(cli, env, ENV_CLIENT_TCP@) {
            Err(e) => Err(e),
            Ok(client_tcp) => match bool_setting(cli, env, ENV_STDIN@, true) {
                Err(e) => Err(e),
                Ok(stdin) => match bool_setting(cli, env, ENV_LOG_INFO@, true) {
                    Err(e) => Err(e),
                    Ok(log_info) => match transport_setting(cli, env, codec) {
                        Err(e) => Err(e),
                        Ok(transport) => match demo_setting(cli, env) {
                            Err(e) => Err(e),
                            Ok(demo) => Ok(
                                ConfigView {
                                    id,
                                    addrs,
                                    codec,
                                    client_http,
                                    client_tcp,
                                    stdin,
                                    log_info,
                                    transport,
                                    demo,
                                },
                            ),
                        },
                    },
                },
            },
        },
    }
}

/// The configuration that the environment and the command line make.
pub open spec fn reconciled(env: Table<Seq<char>>, cli: Table<Seq<char>>) -> Result<
    ConfigView,
    ErrorView,
> {
    match positional_arguments(cli) {
        Err(e) => Err(e),
        Ok(positionals) => match codec_setting(cli, env) {
            Err(e) => Err(e),
            Ok(codec) => match node_id_setting(cli, env, positionals) {
                Err(e) => Err(e),
                Ok(id) => match peers_setting(cli, env, positionals) {
                    Err(e) => Err(e),
                    Ok(addrs) => if id >= addrs.len() {
                        Err(ErrorView::NodeIdOutOfRange { id, peers: addrs.len() as usize })
                    } else {
                        general_settings(cli, env, codec, id, addrs)
                    },
                },
            },
        },
    }
}

/// The content of a configuration or of an error.
pub open spec fn config_view(r: Result<BrokerRuntimeConfig, BrokerRuntimeConfigError>) -> Result<
    ConfigView,
    ErrorView,
> {
    match r {
        Ok(c) => Ok(c@),
        Err(e) => Err(e@),
    }
}

impl BrokerRuntimeConfig {
    /// The configuration that the environment and the parsed command line make.
    pub fn reconcile(env: &Settings, cli_overrides: Settings) -> (r: Result<
        BrokerRuntimeConfig,
        BrokerRuntimeConfigError,
    >)
        requires
            env.wf(),
            cli_overrides.wf(),
        ensures
            config_view(r) == reconciled(env@, cli_overrides@),
    {
        let cli = &cli_overrides;
        let positionals = match find_positionals(cli) {
            Ok(list) => list,
            Err(e) => {
                return Err(e);
            },
        };
        let codec = match parse_codec(cli, env) {
            Ok(codec) => codec,
            Err(e) => {
                return Err(e);
            },
        };
        let id = match parse_node_id(cli, env, &positionals) {
            Ok(id) => id,
            Err(e) => {
                return Err(e);
            },
        };
        let addrs = match find_peers(cli, env, positionals) {
            Ok(addrs) => addrs,
            Err(e) => {
                return Err(e);
            },
        };
        if id as usize >= addrs.len() {
            return Err(BrokerRuntimeConfigError::NodeIdOutOfRange { id, peers: addrs.len() });
        }
        BrokerRuntimeConfig::general(env, cli, codec, id, addrs)
    }

    /// The settings that do not depend on the node's place in the cluster.
    fn general(
        env: &Settings,
        cli: &Settings,
        codec: WireCodec,
        id: NodeId,
        addrs: Vec<String>,
    ) -> (r: Result<BrokerRuntimeConfig, BrokerRuntimeConfigError>)
        requires
            env.wf(),
            cli.wf(),
        ensures
            config_view(r) == general_settings(cli@, env@, codec, id, lock_views(addrs@)),
    {
        let client_http = match optional_socket_addr_setting(cli, env, ENV_CLIENT_HTTP) {
            Ok(addr) => addr,
            Err(e) => {
                return Err(e);
            },
        };
        let client_tcp = match optional_socket_addr_setting(cli, env, ENV_CLIENT_TCP) {
            Ok(addr) => addr,
            Err(e) => {
                return Err(e);
            },
        };
        let stdin = match parse_bool_setting(cli, env, ENV_STDIN, true) {
            Ok(b) => b,
            Err(e) => {
                return Err(e);
            },
        };
        let log_info = match parse_bool_setting(cli, env, ENV_LOG_INFO, true) {
            Ok(b) => b,
            Err(e) => {
                return Err(e);
            },
        };
        let transport = match parse_transport(cli, env, codec) {
            Ok(t) => t,
            Err(e) => {
                return Err(e);
            },
        };
        match parse_demo(cli, env) {
            Err(e) => Err(e),
            Ok(demo) => Ok(
                BrokerRuntimeConfig {
                    id,
                    addrs,
                    codec,
                    client_http,
                    client_tcp,
                    stdin,
                    log_info,
                    transport,
                    demo,
                },
            ),
        }
    }
}

// ---- the command line -----------------------------------------------------------------------------
/// Whether a text begins with another.
pub open spec fn begins(s: Seq<char>, front: Seq<char>) -> bool {
    s.len() >= front.len() && s.take(front.len() as int) == front
}

/// The flag with which a contract for the command line is named.
pub open spec fn is_selector(arg: Seq<char>) -> bool {
    arg == "--config"@ || arg == "--cli-flags"@ || arg == "--cli-flags-config"@
}

/// What follows the flag with which a contract is named, in one argument.
pub open spec fn selected(arg: Seq<char>) -> Option<Seq<char>> {
    if begins(arg, "--config="@) {
        Some(arg.skip("--config="@.len() as int))
    } else if begins(arg, "--cli-flags="@) {
        Some(arg.skip("--cli-flags="@.len() as int))
    } else if begins(arg, "--cli-flags-config="@) {
        Some(arg.skip("--cli-flags-config="@.len() as int))
    } else {
        None
    }
}

/// The contract that the arguments name, if they do.
pub open spec fn selector(args: Seq<Seq<char>>) -> Result<Option<Seq<char>>, ErrorView>
    decreases args.len(),
{
    if args.len() == 0 || args[0] == "--"@ {
        Ok(None)
    } else if selected(args[0]) is Some {
        if trim(selected(args[0])->0).len() == 0 {
            Err(ErrorView::InvalidConfigFlag(args[0]))
        } else {
            Ok(selected(args[0]))
        }
    } else if is_selector(args[0]) {
        if args.len() > 1 {
            Ok(Some(args[1]))
        } else {
            Err(ErrorView::MissingCliValue(args[0]))
        }
    } else if begins(args[0], "--config"@) || begins(args[0], "--cli-flags"@) {
        Err(ErrorView::InvalidConfigFlag(args[0]))
    } else {
        selector(args.skip(1))
    }
}

/// An argument before others, if there are others.
pub open spec fn ahead(arg: Seq<char>, rest: Result<Seq<Seq<char>>, ErrorView>) -> Result<
    Seq<Seq<char>>,
    ErrorView,
> {
    match rest {
        Ok(list) => Ok(seq![arg] + list),
        Err(e) => Err(e),
    }
}

/// The arguments without those that name a contract.
pub open spec fn stripped(args: Seq<Seq<char>>) -> Result<Seq<Seq<char>>, ErrorView>
    decreases args.len(),
{
    if args.len() == 0 {
        Ok(Seq::empty())
    } else if selected(args[0]) is Some {
        stripped(args.skip(1))
    } else if is_selector(args[0]) {
        if args.len() > 1 {
            stripped(args.skip(2))
        } else {
            Err(ErrorView::MissingCliValue(args[0]))
        }
    } else {
        ahead(args[0], stripped(args.skip(1)))
    }
}

/// The arguments behind the name of the program.
pub open spec fn behind_name(args: Seq<Seq<char>>) -> Seq<Seq<char>> {
    if args.len() == 0 {
        args
    } else {
        args.skip(1)
    }
}

/// Whether the arguments ask for help.
pub open spec fn asks_help(args: Seq<Seq<char>>) -> bool {
    args.contains("--help"@) || args.contains("-h"@)
}

/// The help, with the table of flags if there is one.
pub open spec fn help_text(table: Seq<char>) -> Seq<char> {
    if trim(table).len() == 0 {
        USAGE@ + "\n"@
    } else {
        USAGE@ + "\n\n"@ + table
    }
}

/// **Selectors are stripped.** No argument that is handed to the command-line
/// parser names a contract.
pub proof fn law_selectors_are_stripped(args: Seq<Seq<char>>, i: int)
    requires
        stripped(args) is Ok,
        0 <= i < stripped(args)->Ok_0.len(),
    ensures
        !is_selector(stripped(args)->Ok_0[i]),
        selected(stripped(args)->Ok_0[i]) is None,
        args.contains(stripped(args)->Ok_0[i]),
    decreases args.len(),
{
    let list = stripped(args)->Ok_0;
    if selected(args[0]) is Some {
        law_selectors_are_stripped(args.skip(1), i);
        let j = args.skip(1).index_of(list[i]);
        assert(args[j + 1] == list[i]);
    } else if is_selector(args[0]) {
        law_selectors_are_stripped(args.skip(2), i);
        let j = args.skip(2).index_of(list[i]);
        assert(args[j + 2] == list[i]);
    } else if i > 0 {
        let rest = stripped(args.skip(1))->Ok_0;
        assert(list[i] == rest[i - 1]);
        law_selectors_are_stripped(args.skip(1), i - 1);
        let j = args.skip(1).index_of(list[i]);
        assert(args[j + 1] == list[i]);
    } else {
        assert(list[0] == args[0]);
    }
}

/// Whether a text begins with another.
fn has_front(v: &Vec<char>, front: &str) -> (b: bool)
    ensures
        b == begins(v@, front@),
{
    let w = chars_of(front);
    if v.len() < w.len() {
        return false;
    }
    let head = sub_chars(v, 0, w.len());
    assert(head@ =~= v@.take(w@.len() as int));
    chars_are(&head, front)
}

/// What follows a text's beginning.
fn behind(v: &Vec<char>, front: &str) -> (s: String)
    requires
        begins(v@, front@),
    ensures
        s@ == v@.skip(front@.len() as int),
{
    let w = chars_of(front);
    let rest = sub_chars(v, w.len(), v.len());
    assert(rest@ =~= v@.skip(w@.len() as int));
    string_of(&rest)
}

/// What follows the flag with which a contract is named, in one argument.
fn find_selected(arg: &str) -> (r: Option<String>)
    ensures
        opt_view(r) == selected(arg@),
{
    let v = chars_of(arg);
    if has_front(&v, "--config=") {
        Some(behind(&v, "--config="))
    } else if has_front(&v, "--cli-flags=") {
        Some(behind(&v, "--cli-flags="))
    } else if has_front(&v, "--cli-flags-config=") {
        Some(behind(&v, "--cli-flags-config="))
    } else {
        None
    }
}

/// The flag with which a contract is named, if an argument is one.
fn find_selector_flag(arg: &str) -> (r: Option<&'static str>)
    ensures
        match r {
            Some(flag) => is_selector(arg@) && flag@ == arg@,
            None => !is_selector(arg@),
        },
{
    if str_eq(arg, "--config") {
        Some("--config")
    } else if str_eq(arg, "--cli-flags") {
        Some("--cli-flags")
    } else if str_eq(arg, "--cli-flags-config") {
        Some("--cli-flags-config")
    } else {
        None
    }
}

/// The contract that the arguments name, if they do.
pub fn cli_flags_config_from_args(args: &Vec<String>) -> (r: Result<
    Option<String>,
    BrokerRuntimeConfigError,
>)
    ensures
        maybe_text(r) == selector(behind_name(lock_views(args@))),
{
    let ghost views = lock_views(args@);
    if args.len() == 0 {
        return Ok(None);
    }
    let mut i: usize = 1;
    while i < args.len()
        invariant
            views == lock_views(args@),
            1 <= i <= args@.len(),
            selector(views.skip(i as int)) == selector(behind_name(views)),
        decreases args@.len() - i,
    {
        let ghost rest = views.skip(i as int);
        proof {
            assert(rest[0] == args@[i as int]@);
            assert(rest.skip(1) =~= views.skip(i + 1));
        }
        let arg = args[i].as_str();
        if str_eq(arg, "--") {
            return Ok(None);
        }
        match find_selected(arg) {
            Some(path) => {
                if trim_chars(&chars_of(path.as_str())).len() == 0 {
                    return Err(BrokerRuntimeConfigError::InvalidConfigFlag(args[i].clone()));
                }
                return Ok(Some(path));
            },
            None => {},
        }
        match find_selector_flag(arg) {
            Some(flag) => {
                if i + 1 < args.len() {
                    assert(rest[1] == args@[i + 1]@);
                    return Ok(Some(args[i + 1].clone()));
                }
                return Err(BrokerRuntimeConfigError::MissingCliValue(flag));
            },
            None => {},
        }
        let v = chars_of(arg);
        if has_front(&v, "--config") || has_front(&v, "--cli-flags") {
            return Err(BrokerRuntimeConfigError::InvalidConfigFlag(args[i].clone()));
        }
        i += 1;
    }
    assert(views.skip(i as int) =~= Seq::empty());
    Ok(None)
}

/// A list before another, if there is another.
spec fn all_ahead(front: Seq<Seq<char>>, rest: Result<Seq<Seq<char>>, ErrorView>) -> Result<
    Seq<Seq<char>>,
    ErrorView,
> {
    match rest {
        Ok(list) => Ok(front + list),
        Err(e) => Err(e),
    }
}

/// The arguments without the name of the program and without those that name a
/// contract.
pub fn strip_config_selector(args: &Vec<String>) -> (r: Result<
    Vec<String>,
    BrokerRuntimeConfigError,
>)
    ensures
        listed(r) == stripped(behind_name(lock_views(args@))),
{
    let ghost views = lock_views(args@);
    let ghost whole = stripped(behind_name(views));
    let mut list: Vec<String> = Vec::new();
    if args.len() == 0 {
        assert(lock_views(list@) =~= Seq::empty());
        return Ok(list);
    }
    let mut i: usize = 1;
    proof {
        if let Ok(l) = whole {
            assert(lock_views(list@) + l =~= l);
        }
    }
    while i < args.len()
        invariant
            views == lock_views(args@),
            whole == stripped(behind_name(views)),
            1 <= i <= args@.len(),
            all_ahead(lock_views(list@), stripped(views.skip(i as int))) == whole,
        decreases args@.len() - i,
    {
        let ghost rest = views.skip(i as int);
        let ghost was = lock_views(list@);
        proof {
            assert(rest[0] == args@[i as int]@);
            assert(rest.skip(1) =~= views.skip(i + 1));
        }
        let arg = args[i].as_str();
        if find_selected(arg).is_some() {
            i += 1;
        } else {
            match find_selector_flag(arg) {
                Some(flag) => {
                    if args.len() - i < 2 {
                        return Err(BrokerRuntimeConfigError::MissingCliValue(flag));
                    }
                    assert(rest.skip(2) =~= views.skip(i + 2));
                    i += 2;
                },
                None => {
                    list.push(args[i].clone());
                    proof {
                        assert(lock_views(list@) =~= was.push(rest[0]));
                        if let Ok(l) = stripped(rest.skip(1)) {
                            assert(was + (seq![rest[0]] + l) =~= lock_views(list@) + l);
                        }
                    }
                    i += 1;
                },
            }
        }
    }
    proof {
        assert(views.skip(i as int) =~= Seq::empty());
        assert(lock_views(list@) + Seq::<Seq<char>>::empty() =~= lock_views(list@));
    }
    Ok(list)
}

/// Whether the arguments ask for help.
pub fn wants_help(args: &Vec<String>) -> (b: bool)
    ensures
        b == asks_help(lock_views(args@)),
{
    let ghost views = lock_views(args@);
    let mut i: usize = 0;
    while i < args.len()
        invariant
            views == lock_views(args@),
            i <= args@.len(),
            forall|j: int|
                0 <= j < i ==> #[trigger] views[j] != "--help"@ && views[j] != "-h"@,
        decreases args@.len() - i,
    {
        assert(views[i as int] == args@[i as int]@);
        if str_eq(args[i].as_str(), "--help") || str_eq(args[i].as_str(), "-h") {
            assert(views.contains(views[i as int]));
            return true;
        }
        i += 1;
    }
    false
}

/// The help, with the table of flags if there is one.
pub fn render_help(table: &str) -> (s: String)
    ensures
        s@ == help_text(table@),
{
    if trim_chars(&chars_of(table)).len() == 0 {
        joined(USAGE, "\n")
    } else {
        let head = joined(USAGE, "\n\n");
        joined(head.as_str(), table)
    }
}

/// The contract that the arguments or the environment name, if they do.
pub open spec fn named_contract(env: Table<Seq<char>>, args: Seq<Seq<char>>) -> Result<
    Option<Seq<char>>,
    ErrorView,
> {
    match selector(behind_name(args)) {
        Err(e) => Err(e),
        Ok(Some(path)) => Ok(Some(path)),
        Ok(None) => match filled(env, ENV_LMX_CLI_FLAGS_CONFIG@) {
            Some(path) => Ok(Some(path)),
            None => Ok(filled(env, ENV_FLAGS2ENV_CONFIG@)),
        },
    }
}

/// The contract that the arguments or the environment name, if they do.
pub fn explicit_contract(env: &Settings, args: &Vec<String>) -> (r: Result<
    Option<String>,
    BrokerRuntimeConfigError,
>)
    requires
        env.wf(),
    ensures
        maybe_text(r) == named_contract(env@, lock_views(args@)),
{
    match cli_flags_config_from_args(args) {
        Err(e) => Err(e),
        Ok(Some(path)) => Ok(Some(path)),
        Ok(None) => match find_filled(env, ENV_LMX_CLI_FLAGS_CONFIG) {
            Some(path) => Ok(Some(path)),
            None => Ok(find_filled(env, ENV_FLAGS2ENV_CONFIG)),
        },
    }
}

/// Where a contract may lie if none is named: with the package of the program
/// in directory `parent`, beside the program, or in one of `sources`.
pub open spec fn candidate_paths(parent: Option<Seq<char>>, sources: Seq<Seq<char>>) -> Seq<
    Seq<char>,
> {
    match parent {
        Some(dir) => seq![
            dir + "/../share/live-mutex-mills/.cli-flags.toml"@,
            dir + "/.cli-flags.toml"@,
        ] + sources,
        None => sources,
    }
}

/// Where a contract may lie if none is named, best place first.
pub fn contract_candidates(parent: Option<&str>, sources: Vec<String>) -> (paths: Vec<String>)
    ensures
        lock_views(paths@) == candidate_paths(
            match parent {
                Some(dir) => Some(dir@),
                None => None,
            },
            lock_views(sources@),
        ),
{
    match parent {
        None => sources,
        Some(dir) => {
            let ghost rest = lock_views(sources@);
            let mut paths = sources;
            paths.insert(0, joined(dir, "/.cli-flags.toml"));
            paths.insert(0, joined(dir, "/../share/live-mutex-mills/.cli-flags.toml"));
            assert(lock_views(paths@) =~= candidate_paths(Some(dir@), rest));
            paths
        },
    }
}

/// What was found at a path that was named.
#[derive(Debug)]
pub struct Probe {
    /// Whether the path is absolute.
    pub absolute: bool,
    /// The readable regular file there, if there is one.
    pub found: Option<String>,
}

/// The first file that was found.
pub open spec fn first_found(found: Seq<Option<String>>) -> Option<Seq<char>>
    decreases found.len(),
{
    if found.len() == 0 {
        None
    } else {
        match found[0] {
            Some(path) => Some(path@),
            None => first_found(found.skip(1)),
        }
    }
}

/// The contract to use: the one that is named, which must be there, else the
/// first of the candidates that is there. Nothing if there is none: then the
/// contract that comes with the program is to be used.
pub fn resolve_cli_flags_config_from(explicit: Option<Probe>, found: &Vec<Option<String>>) -> (r:
    Result<Option<String>, BrokerRuntimeConfigError>)
    ensures
        maybe_text(r) == match explicit {
            Some(probe) => if !probe.absolute {
                Err(ErrorView::ExplicitConfigMustBeAbsolute)
            } else {
                match probe.found {
                    Some(path) => Ok(Some(path@)),
                    None => Err(ErrorView::ExplicitConfigUnreadable),
                }
            },
            None => Ok(first_found(found@)),
        },
{
    match explicit {
        Some(probe) => {
            if !probe.absolute {
                return Err(BrokerRuntimeConfigError::ExplicitConfigMustBeAbsolute);
            }
            match probe.found {
                Some(path) => Ok(Some(path)),
                None => Err(BrokerRuntimeConfigError::ExplicitConfigUnreadable),
            }
        },
        None => {
            let mut i: usize = 0;
            assert(found@.skip(0) =~= found@);
            while i < found.len()
                invariant
                    explicit is None,
                    i <= found@.len(),
                    first_found(found@.skip(i as int)) == first_found(found@),
                decreases found@.len() - i,
            {
                assert(found@.skip(i as int)[0] == found@[i as int]);
                assert(found@.skip(i as int).skip(1) =~= found@.skip(i + 1));
                match &found[i] {
                    Some(path) => {
                        return Ok(Some(path.clone()));
                    },
                    None => {},
                }
                i += 1;
            }
            assert(found@.skip(i as int) =~= Seq::empty());
            Ok(None)
        },
    }
}

/// Settings out of names and values; of a name that occurs twice, the last value.
pub open spec fn settings_of(pairs: Seq<(Seq<char>, Seq<char>)>) -> Table<Seq<char>>
    decreases pairs.len(),
{
    if pairs.len() == 0 {
        Table::empty()
    } else {
        settings_of(pairs.drop_last()).put(pairs.last().0, pairs.last().1)
    }
}

/// The settings that the command-line parser has found, from its text: that of an
/// object with a text for each setting. An error does not repeat the parser's text.
pub fn overrides_from_json(raw: &str) -> (r: Result<Settings, BrokerRuntimeConfigError>)
    ensures
        match r {
            Ok(s) => s.wf() && match json_texts(raw@) {
                Some(pairs) => s@ == settings_of(pairs),
                None => false,
            },
            Err(e) => json_texts(raw@) is None && e@ == (ErrorView::CliParserJson {
                raw: Seq::empty(),
            }),
        },
{
    let found = match parse_json_texts(raw) {
        Ok(found) => found,
        Err(source) => {
            let e = BrokerRuntimeConfigError::CliParserJson { raw: String::new(), source };
            assert(e@->CliParserJson_raw =~= Seq::empty());
            return Err(e);
        },
    };
    Ok(settings_from(&found))
}

/// [`settings_of`], executable.
pub fn settings_from(found: &Vec<(String, String)>) -> (settings: Settings)
    ensures
        settings.wf(),
        settings@ == settings_of(pair_views(found@)),
{
    let ghost views = pair_views(found@);
    let mut settings = Settings::new();
    let mut i: usize = 0;
    assert(views.take(0) =~= Seq::empty());
    while i < found.len()
        invariant
            views == pair_views(found@),
            i <= found@.len(),
            settings.wf(),
            settings@ == settings_of(views.take(i as int)),
        decreases found@.len() - i,
    {
        proof {
            assert(views[i as int] == (found@[i as int].0@, found@[i as int].1@));
            assert(views.take(i + 1).drop_last() =~= views.take(i as int));
            assert(views.take(i + 1).last() == views[i as int]);
        }
        settings.set(found[i].0.clone(), found[i].1.clone());
        i += 1;
    }
    assert(views.take(i as int) =~= views);
    settings
}

/// The arguments as the text that the command-line parser takes: a list of texts.
pub fn argv_json(args: &Vec<String>) -> (s: String)
    ensures
        s@ == json_text(
            JsonView::Array(lock_views(args@).map_values(|t: Seq<char>| JsonView::Str(t))),
        ),
{
    let mut items: Vec<Json> = Vec::new();
    let mut i: usize = 0;
    let ghost f = |t: Seq<char>| JsonView::Str(t);
    let ghost views = lock_views(args@).map_values(f);
    assert(item_views(items@) =~= views.take(0));
    while i < args.len()
        invariant
            views == lock_views(args@).map_values(|t: Seq<char>| JsonView::Str(t)),
            i <= args@.len(),
            item_views(items@) == views.take(i as int),
        decreases args@.len() - i,
    {
        push_item(&mut items, Json::text(args[i].clone()));
        assert(views[i as int] == JsonView::Str(args@[i as int]@));
        i += 1;
        assert(item_views(items@) =~= views.take(i as int));
    }
    assert(views.take(i as int) =~= views);
    render_json(&Json::array(items))
}

/// What the command-line parser makes of the arguments.
pub struct CliParse {
    /// Whether its contract is there.
    pub contract: Result<(), BrokerRuntimeConfigError>,
    /// Its table of flags.
    pub help_table: Result<String, BrokerRuntimeConfigError>,
    /// What it found: the text of an object with a text for each setting.
    pub overrides: Result<String, BrokerRuntimeConfigError>,
}

/// The configuration that the environment and the arguments make, with what the
/// command-line parser makes of the arguments.
pub open spec fn configured(env: Table<Seq<char>>, args: Seq<Seq<char>>, parse: CliParse) -> Result<
    ConfigView,
    ErrorView,
> {
    match (selector(behind_name(args)), parse.contract, stripped(behind_name(args))) {
        (Err(e), _, _) => Err(e),
        (Ok(_), Err(e), _) => Err(e@),
        (Ok(_), Ok(_), Err(e)) => Err(e),
        (Ok(_), Ok(_), Ok(rest)) => if asks_help(rest) {
            match parse.help_table {
                Ok(table) => Err(ErrorView::HelpRequested(help_text(table@))),
                Err(e) => Err(e@),
            }
        } else {
            match parse.overrides {
                Ok(raw) => match json_texts(raw@) {
                    Some(pairs) => reconciled(env, settings_of(pairs)),
                    None => Err(ErrorView::CliParserJson { raw: Seq::empty() }),
                },
                Err(e) => Err(e@),
            }
        },
    }
}

impl BrokerRuntimeConfig {
    /// The configuration that the environment and the arguments make, with what
    /// the command-line parser makes of the arguments.
    pub fn from_env_and_args(env: &Settings, args: &Vec<String>, parse: CliParse) -> (r: Result<
        BrokerRuntimeConfig,
        BrokerRuntimeConfigError,
    >)
        requires
            env.wf(),
        ensures
            config_view(r) == configured(env@, lock_views(args@), parse),
    {
        match cli_flags_config_from_args(args) {
            Err(e) => {
                return Err(e);
            },
            Ok(_) => {},
        }
        match parse.contract {
            Err(e) => {
                return Err(e);
            },
            Ok(_) => {},
        }
        let rest = match strip_config_selector(args) {
            Err(e) => {
                return Err(e);
            },
            Ok(rest) => rest,
        };
        if wants_help(&rest) {
            return match parse.help_table {
                Ok(table) => Err(
                    BrokerRuntimeConfigError::HelpRequested(render_help(table.as_str())),
                ),
                Err(e) => Err(e),
            };
        }
        match parse.overrides {
            Ok(raw) => match overrides_from_json(raw.as_str()) {
                Ok(cli) => BrokerRuntimeConfig::reconcile(env, cli),
                Err(e) => Err(e),
            },
            Err(e) => Err(e),
        }
    }
}

// ---- laws -----------------------------------------------------------------------------------------
/// The environments agree on every setting that neither a flag nor a positional
/// argument gives.
pub open spec fn agree_beside(
    a: Table<Seq<char>>,
    b: Table<Seq<char>>,
    cli: Table<Seq<char>>,
    positionals: Seq<Seq<char>>,
) -> bool {
    forall|k: Seq<char>|
        !(cli.map.contains_key(k) || (k == ENV_NODE_ID@ && positionals.len() > 0) || (k
            == ENV_PEER_ADDRS@ && positionals.len() > 1)) ==> #[trigger] filled(a, k) == filled(
            b,
            k,
        )
}

/// **The command line wins over the environment.** What the environment says of
/// a setting makes no difference if a flag gives it, or if a positional argument
/// gives the node's id or the addresses.
pub proof fn law_command_line_wins(
    a: Table<Seq<char>>,
    b: Table<Seq<char>>,
    cli: Table<Seq<char>>,
)
    requires
        positional_arguments(cli) matches Ok(positionals) ==> agree_beside(a, b, cli, positionals),
    ensures
        reconciled(a, cli) == reconciled(b, cli),
{
    if let Ok(positionals) = positional_arguments(cli) {
        assert forall|k: Seq<char>| beside_place(k) implies #[trigger] setting(cli, a, k) == setting(
            cli,
            b,
            k,
        ) && optional(cli, a, k) == optional(cli, b, k) by {
            if !cli.map.contains_key(k) {
                assert(filled(a, k) == filled(b, k));
            }
        }
        lemma_names_differ();
        lemma_other_settings(a, b, cli);
        assert(node_id_setting(cli, a, positionals) == node_id_setting(cli, b, positionals)) by {
            if !cli.map.contains_key(ENV_NODE_ID@) && positionals.len() == 0 {
                assert(filled(a, ENV_NODE_ID@) == filled(b, ENV_NODE_ID@));
            }
        }
        assert(peers_setting(cli, a, positionals) == peers_setting(cli, b, positionals)) by {
            if !cli.map.contains_key(ENV_PEER_ADDRS@) && positionals.len() <= 1 {
                assert(filled(a, ENV_PEER_ADDRS@) == filled(b, ENV_PEER_ADDRS@));
            }
        }
    }
}

/// A setting other than the node's id and the addresses.
spec fn beside_place(k: Seq<char>) -> bool {
    k != ENV_NODE_ID@ && k != ENV_PEER_ADDRS@
}

/// The names of settings differ.
proof fn lemma_names_differ()
    ensures
        ENV_NODE_ID@ != ENV_PEER_ADDRS@,
        beside_place(ENV_CODEC@),
        beside_place(ENV_CLIENT_HTTP@),
        beside_place(ENV_CLIENT_TCP@),
        beside_place(ENV_STDIN@),
        beside_place(ENV_LOG_INFO@),
        beside_place(ENV_CONNECT_RETRY_MS@),
        beside_place(ENV_TICK_MS@),
        beside_place(ENV_MAX_FRAME_BYTES@),
        beside_place(ENV_QUORUM_POLICY@),
        beside_place(ENV_DEMO@),
        beside_place(ENV_DEMO_KEYS@),
        beside_place(ENV_DEMO_HOLD_MS@),
        beside_place(ENV_DEMO_REST_MS@),
{
    reveal_strlit("LMX_NODE_ID");
    reveal_strlit("LMX_PEER_ADDRS");
    reveal_strlit("LMX_CODEC");
    reveal_strlit("LMX_CLIENT_HTTP");
    reveal_strlit("LMX_CLIENT_TCP");
    reveal_strlit("LMX_STDIN");
    reveal_strlit("LMX_LOG_INFO");
    reveal_strlit("LMX_CONNECT_RETRY_MS");
    reveal_strlit("LMX_TICK_MS");
    reveal_strlit("LMX_MAX_FRAME_BYTES");
    reveal_strlit("LMX_QUORUM_POLICY");
    reveal_strlit("LMX_DEMO");
    reveal_strlit("LMX_DEMO_KEYS");
    reveal_strlit("LMX_DEMO_HOLD_MS");
    reveal_strlit("LMX_DEMO_REST_MS");
    assert(ENV_NODE_ID@[4] == 'N');
    assert(ENV_PEER_ADDRS@[4] == 'P');
    assert(ENV_CODEC@[4] == 'C');
    assert(ENV_CLIENT_HTTP@[4] == 'C');
    assert(ENV_CLIENT_TCP@[4] == 'C');
    assert(ENV_STDIN@[4] == 'S');
    assert(ENV_LOG_INFO@[4] == 'L');
    assert(ENV_CONNECT_RETRY_MS@[4] == 'C');
    assert(ENV_TICK_MS@[4] == 'T');
    assert(ENV_MAX_FRAME_BYTES@[4] == 'M');
    assert(ENV_QUORUM_POLICY@[4] == 'Q');
    assert(ENV_DEMO@[4] == 'D');
    assert(ENV_DEMO_KEYS@[4] == 'D');
    assert(ENV_DEMO_HOLD_MS@[4] == 'D');
    assert(ENV_DEMO_REST_MS@[4] == 'D');
}

/// Settings other than the node's place do not depend on what is set for that.
proof fn lemma_other_settings(a: Table<Seq<char>>, b: Table<Seq<char>>, cli: Table<Seq<char>>)
    requires
        forall|k: Seq<char>|
            beside_place(k) ==> #[trigger] setting(cli, a, k) == setting(cli, b, k) && optional(
                cli,
                a,
                k,
            ) == optional(cli, b, k),
    ensures
        codec_setting(cli, a) == codec_setting(cli, b),
        forall|codec: WireCodec, id: NodeId, addrs: Seq<Seq<char>>| #[trigger]
            general_settings(cli, a, codec, id, addrs) == general_settings(
                cli,
                b,
                codec,
                id,
                addrs,
            ),
{
    lemma_names_differ();
    assert forall|k: Seq<char>, default: u64, min: u64, max: u64| beside_place(k) implies
        #[trigger] number_setting(cli, a, k, default, min, max) == number_setting(
        cli,
        b,
        k,
        default,
        min,
        max,
    ) by {
        assert(setting(cli, a, k) == setting(cli, b, k));
    }
    assert forall|k: Seq<char>, default: bool| beside_place(k) implies #[trigger] bool_setting(
        cli,
        a,
        k,
        default,
    ) == bool_setting(cli, b, k, default) by {
        assert(setting(cli, a, k) == setting(cli, b, k));
    }
    assert forall|k: Seq<char>| beside_place(k) implies #[trigger] listener_setting(cli, a, k)
        == listener_setting(cli, b, k) by {
        assert(setting(cli, a, k) == setting(cli, b, k));
    }
    assert(setting(cli, a, ENV_CODEC@) == setting(cli, b, ENV_CODEC@));
    assert(policy_setting(cli, a) == policy_setting(cli, b)) by {
        assert(setting(cli, a, ENV_QUORUM_POLICY@) == setting(cli, b, ENV_QUORUM_POLICY@));
    }
    assert(demo_keys(cli, a) == demo_keys(cli, b)) by {
        assert(setting(cli, a, ENV_DEMO_KEYS@) == setting(cli, b, ENV_DEMO_KEYS@));
    }
    assert(demo_setting(cli, a) == demo_setting(cli, b));
    assert forall|codec: WireCodec| #[trigger] transport_setting(cli, a, codec)
        == transport_setting(cli, b, codec) by {}
}

/// Addresses without a fault look like addresses and are different.
proof fn lemma_no_fault(addrs: Seq<Seq<char>>, n: nat)
    requires
        n <= addrs.len(),
        addrs_fault(addrs, n) is None,
    ensures
        forall|i: int| 0 <= i < n ==> socketish(#[trigger] addrs[i]),
        forall|i: int, j: int| 0 <= i < j < n ==> #[trigger] addrs[i] != #[trigger] addrs[j],
    decreases n,
{
    if n > 0 {
        lemma_no_fault(addrs, (n - 1) as nat);
        assert(!repeated(addrs, n - 1));
    }
}

/// Text without whitespace stays as it is when it is trimmed.
proof fn lemma_trim_no_white(s: Seq<char>)
    requires
        s.len() > 0,
        !has_white(s),
    ensures
        trim(s) == s,
{
    lemma_word_end_bound(s);
    assert(!white(s[0]));
    assert(!white(s[s.len() - 1]));
}

/// Before the first whitespace there is none.
proof fn lemma_word_end_bound(s: Seq<char>)
    ensures
        0 <= word_end(s) <= s.len(),
        forall|i: int| 0 <= i < word_end(s) ==> !white(#[trigger] s[i]),
    decreases s.len(),
{
    if s.len() > 0 && !white(s[0]) {
        let rest = s.skip(1);
        lemma_word_end_bound(rest);
        assert forall|i: int| 0 <= i < word_end(s) implies !white(#[trigger] s[i]) by {
            if i > 0 {
                assert(s[i] == rest[i - 1]);
            }
        }
    }
}

/// **A configuration can be run.** A configuration that is accepted names the
/// node's place among different addresses that all look like addresses, its
/// intervals and limits are within bounds, and the transport accepts it.
pub proof fn law_configuration_can_be_run(env: Table<Seq<char>>, cli: Table<Seq<char>>)
    requires
        reconciled(env, cli) is Ok,
    ensures
        ({
            let c = reconciled(env, cli)->Ok_0;
            &&& config_error(c.id, c.addrs) is None
            &&& forall|i: int| 0 <= i < c.addrs.len() ==> socketish(#[trigger] c.addrs[i])
            &&& c.transport.codec == c.codec
            &&& MIN_CONNECT_RETRY_MS <= c.transport.connect_retry.millis <= MAX_CONNECT_RETRY_MS
            &&& MIN_TICK_MS <= c.transport.tick.millis <= RENEW_INTERVAL
            &&& MIN_MAX_FRAME_BYTES <= c.transport.max_line_frame <= MAX_MAX_FRAME_BYTES
            &&& c.demo.enabled ==> keys_fit(c.demo.keys)
            &&& 0 < c.demo.hold.millis <= MAX_DEMO_DELAY_MS
            &&& 0 < c.demo.rest.millis <= MAX_DEMO_DELAY_MS
        }),
{
    let c = reconciled(env, cli)->Ok_0;
    let positionals = positional_arguments(cli)->Ok_0;
    assert(peers_setting(cli, env, positionals) == Ok::<Seq<Seq<char>>, ErrorView>(c.addrs));
    assert(peers_fault(c.addrs) is None);
    lemma_no_fault(c.addrs, c.addrs.len());
    assert(!has_blank(c.addrs)) by {
        assert forall|i: int| 0 <= i < c.addrs.len() implies trim(#[trigger] c.addrs[i]).len()
            > 0 by {
            lemma_trim_no_white(c.addrs[i]);
        }
    }
    assert(c.addrs.no_duplicates()) by {
        assert forall|i: int, j: int|
            0 <= i < c.addrs.len() && 0 <= j < c.addrs.len() && i != j implies c.addrs[i]
            != c.addrs[j] by {
            if i < j {
                assert(c.addrs[i] != c.addrs[j]);
            } else {
                assert(c.addrs[j] != c.addrs[i]);
            }
        }
    }
}

} // verus!
