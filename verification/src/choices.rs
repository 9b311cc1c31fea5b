//! What each setting of a broker means: which words and numbers are taken, what holds where
//! nothing is set, and what is refused.
//!
//! The names of the settings, their words and their bounds stand here as the people who set
//! them write them.
use vstd::prelude::*;

use crate::broker_runtime_config::{
    addrs_fault, addrs_in, asks_help, begins, bool_setting, candidate_paths, cleaned,
    codec_setting, comma_list, configured, demo_setting, first_found, help_text, is_selector,
    keys_fit, listener_setting, named_contract, node_id_setting, number_setting, optional,
    peers_fault, peers_setting, policy_setting, positional_arguments, reconciled, repeated,
    selected, selector, setting, settings_of, socketish, stripped, text_list, transport_setting,
    truth_of, CliParse, ConfigView, DemoView, ErrorView,
};
use crate::codec::WireCodec;
use crate::composite::MAX_COMPOSITE_KEYS;
use crate::json::{json_texts, json_value, JsonView};
use crate::lock_map::Table;
use crate::quorum::QuorumPolicy;
use crate::text::{
    decimal, has_white, last_position, law_decimal_reads_back, lemma_decimal, lower, parse_number,
    split, trim, trim_start, white, word_end,
};
use crate::transport::{config_error, greeting, hello, ConfigError, TransportSettings};
use crate::types::NodeId;
use crate::wording::{blank, lacks, law_splitting, law_trimming, law_words, solid, tight};

verus! {

// ---- what is said ---------------------------------------------------------------------------------
/// What is said of a setting, without whitespace at the ends: on the command line, blank or
/// not; or else in the environment, unless that is blank.
pub open spec fn said(env: Table<Seq<char>>, cli: Table<Seq<char>>, key: Seq<char>) -> Option<
    Seq<char>,
> {
    match cli.get(key) {
        Some(v) => Some(trim(v)),
        None => match env.get(key) {
            Some(v) => if trim(v).len() > 0 {
                Some(trim(v))
            } else {
                None
            },
            None => None,
        },
    }
}

/// A word for Maekawa's grid.
pub open spec fn is_grid_word(w: Seq<char>) -> bool {
    lower(w) == "grid"@ || lower(w) == "sqrt"@ || lower(w) == "maekawa"@
}

/// A word for majorities.
pub open spec fn is_majority_word(w: Seq<char>) -> bool {
    lower(w) == "majority"@ || lower(w) == "maj"@
}

/// A word for yes.
pub open spec fn is_yes(w: Seq<char>) -> bool {
    let v = lower(w);
    v == "1"@ || v == "true"@ || v == "t"@ || v == "yes"@ || v == "on"@
}

/// A word for no, or nothing at all.
pub open spec fn is_no(w: Seq<char>) -> bool {
    let v = lower(w);
    v.len() == 0 || v == "0"@ || v == "false"@ || v == "f"@ || v == "no"@ || v == "off"@
}

/// The policy that is chosen.
pub open spec fn chooses_policy(
    env: Table<Seq<char>>,
    cli: Table<Seq<char>>,
    policy: QuorumPolicy,
) -> bool {
    match said(env, cli, "LMX_QUORUM_POLICY"@) {
        None => policy is Majority,
        Some(w) => match policy {
            QuorumPolicy::Grid => is_grid_word(w),
            QuorumPolicy::Majority => is_majority_word(w),
        },
    }
}

/// The codec that is chosen.
pub open spec fn chooses_codec(
    env: Table<Seq<char>>,
    cli: Table<Seq<char>>,
    codec: WireCodec,
) -> bool {
    match said(env, cli, "LMX_CODEC"@) {
        None => codec is Text,
        Some(w) => match codec {
            WireCodec::Text => lower(w) == "text"@,
            WireCodec::Json => lower(w) == "json"@,
            WireCodec::Msgpack => lower(w) == "msgpack"@ || lower(w) == "messagepack"@,
        },
    }
}

/// The switch is so.
pub open spec fn chooses_bool(
    env: Table<Seq<char>>,
    cli: Table<Seq<char>>,
    key: Seq<char>,
    otherwise: bool,
    b: bool,
) -> bool {
    match said(env, cli, key) {
        None => b == otherwise,
        Some(w) => if b {
            is_yes(w)
        } else {
            is_no(w)
        },
    }
}

/// The number is this one, and within its bounds.
pub open spec fn chooses_number(
    env: Table<Seq<char>>,
    cli: Table<Seq<char>>,
    key: Seq<char>,
    otherwise: nat,
    min: nat,
    max: nat,
    n: nat,
) -> bool {
    match said(env, cli, key) {
        None => n == otherwise,
        Some(w) => parse_number(w, u64::MAX as nat) == Some(n) && min <= n <= max,
    }
}

/// The listener has this address, or there is none: nothing is said, or something blank.
pub open spec fn chooses_listener(
    env: Table<Seq<char>>,
    cli: Table<Seq<char>>,
    key: Seq<char>,
    addr: Option<Seq<char>>,
) -> bool {
    match said(env, cli, key) {
        None => addr is None,
        Some(w) => if w.len() == 0 {
            addr is None
        } else {
            addr == Some(w) && socketish(w)
        },
    }
}

/// The keys of the workload.
pub open spec fn chooses_keys(
    env: Table<Seq<char>>,
    cli: Table<Seq<char>>,
    keys: Seq<Seq<char>>,
) -> bool {
    match said(env, cli, "LMX_DEMO_KEYS"@) {
        None => keys == comma_list("cap,mid,zed"@),
        Some(w) => keys == comma_list(w),
    }
}

/// The id of the node: by its flag, else the first argument, else from the environment.
pub open spec fn chooses_id(
    env: Table<Seq<char>>,
    cli: Table<Seq<char>>,
    arguments: Seq<Seq<char>>,
    id: NodeId,
) -> bool {
    let w = if cli.get("LMX_NODE_ID"@) is None && arguments.len() > 0 {
        Some(arguments[0])
    } else {
        said(env, cli, "LMX_NODE_ID"@)
    };
    w matches Some(w) && parse_number(w, u32::MAX as nat) == Some(id as nat)
}

/// The addresses of the nodes: by their flag, else the other arguments, else from the
/// environment.
pub open spec fn chooses_addrs(
    env: Table<Seq<char>>,
    cli: Table<Seq<char>>,
    arguments: Seq<Seq<char>>,
    addrs: Seq<Seq<char>>,
) -> bool {
    if cli.get("LMX_PEER_ADDRS"@) is None && arguments.len() > 1 {
        addrs == arguments.skip(1)
    } else {
        said(env, cli, "LMX_PEER_ADDRS"@) matches Some(w) && addrs_in(w) == Some(addrs)
    }
}

/// Addresses that are in order: there are some, each looks like one, and none is repeated.
pub open spec fn good_addrs(addrs: Seq<Seq<char>>) -> bool {
    &&& addrs.len() > 0
    &&& forall|i: int| 0 <= i < addrs.len() ==> socketish(#[trigger] addrs[i])
    &&& forall|i: int, j: int|
        #![trigger addrs[i], addrs[j]]
        0 <= i < j < addrs.len() ==> addrs[i] != addrs[j]
}

/// Addresses in order are accepted, and others are not.
proof fn lemma_good_addrs(addrs: Seq<Seq<char>>, n: nat)
    requires
        n <= addrs.len(),
    ensures
        addrs_fault(addrs, n) is None <==> {
            &&& forall|i: int| 0 <= i < n ==> socketish(#[trigger] addrs[i])
            &&& forall|i: int, j: int|
                #![trigger addrs[i], addrs[j]]
                0 <= i < j < n ==> addrs[i] != addrs[j]
        },
    decreases n,
{
    if n > 0 {
        lemma_good_addrs(addrs, (n - 1) as nat);
        if addrs_fault(addrs, (n - 1) as nat) is None && socketish(addrs[n - 1]) {
            if repeated(addrs, n - 1) {
                let j = choose|j: int| 0 <= j < n - 1 && #[trigger] addrs[j] == addrs[n - 1];
                assert(addrs[j] == addrs[n - 1]);
            } else {
                assert forall|i: int, j: int|
                    #![trigger addrs[i], addrs[j]]
                    0 <= i < j < n implies addrs[i] != addrs[j] by {
                    if j == n - 1 {
                        assert(addrs[i] != addrs[n - 1]);
                    }
                }
            }
        }
    }
}

/// What a configuration is made of.
pub open spec fn chooses(env: Table<Seq<char>>, cli: Table<Seq<char>>, c: ConfigView) -> bool {
    &&& positional_arguments(cli) matches Ok(arguments) && chooses_id(env, cli, arguments, c.id)
        && chooses_addrs(env, cli, arguments, c.addrs)
    &&& good_addrs(c.addrs)
    &&& c.id < c.addrs.len()
    &&& chooses_codec(env, cli, c.codec)
    &&& c.transport.codec == c.codec
    &&& chooses_policy(env, cli, c.transport.quorum_policy)
    &&& chooses_listener(env, cli, "LMX_CLIENT_HTTP"@, c.client_http)
    &&& chooses_listener(env, cli, "LMX_CLIENT_TCP"@, c.client_tcp)
    &&& chooses_bool(env, cli, "LMX_STDIN"@, true, c.stdin)
    &&& chooses_bool(env, cli, "LMX_LOG_INFO"@, true, c.log_info)
    &&& chooses_number(
        env,
        cli,
        "LMX_CONNECT_RETRY_MS"@,
        150,
        10,
        60_000,
        c.transport.connect_retry.millis as nat,
    )
    &&& chooses_number(env, cli, "LMX_TICK_MS"@, 500, 10, 2_000, c.transport.tick.millis as nat)
    &&& chooses_number(
        env,
        cli,
        "LMX_MAX_FRAME_BYTES"@,
        1_048_576,
        128,
        67_108_864,
        c.transport.max_line_frame as nat,
    )
    &&& chooses_bool(env, cli, "LMX_DEMO"@, false, c.demo.enabled)
    &&& chooses_keys(env, cli, c.demo.keys)
    &&& c.demo.enabled ==> keys_fit(c.demo.keys)
    &&& chooses_number(
        env,
        cli,
        "LMX_DEMO_HOLD_MS"@,
        800,
        1,
        3_600_000,
        c.demo.hold.millis as nat,
    )
    &&& chooses_number(
        env,
        cli,
        "LMX_DEMO_REST_MS"@,
        400,
        1,
        3_600_000,
        c.demo.rest.millis as nat,
    )
}

/// The words for switches differ.
proof fn lemma_switch_words_differ()
    ensures
        "0"@.len() == 1,
        "false"@.len() == 5,
        "f"@.len() == 1,
        "no"@.len() == 2,
        "off"@.len() == 3,
        "1"@.len() == 1,
        "true"@.len() == 4,
        "t"@.len() == 1,
        "yes"@.len() == 3,
        "on"@.len() == 2,
        "0"@[0] == '0',
        "f"@[0] == 'f',
        "no"@[0] == 'n',
        "off"@[0] == 'o',
        "1"@[0] == '1',
        "t"@[0] == 't',
        "yes"@[0] == 'y',
        "on"@[0] == 'o',
{
    reveal_strlit("0");
    reveal_strlit("false");
    reveal_strlit("f");
    reveal_strlit("no");
    reveal_strlit("off");
    reveal_strlit("1");
    reveal_strlit("true");
    reveal_strlit("t");
    reveal_strlit("yes");
    reveal_strlit("on");
}

/// Words and numbers decide.
proof fn lemma_words_decide()
    ensures
        "text"@ != "json"@ && "text"@ != "msgpack"@ && "text"@ != "messagepack"@,
        "json"@ != "msgpack"@ && "json"@ != "messagepack"@,
        forall|w: Seq<char>| !(#[trigger] is_grid_word(w) && is_majority_word(w)),
        forall|w: Seq<char>| !(#[trigger] is_yes(w) && is_no(w)),
        ""@.len() == 0,
{
    reveal_strlit("majority");
    reveal_strlit("maj");
    reveal_strlit("grid");
    reveal_strlit("sqrt");
    reveal_strlit("maekawa");
    assert("majority"@.len() == 8);
    assert("maj"@.len() == 3);
    assert("grid"@.len() == 4);
    assert("sqrt"@.len() == 4);
    assert("maekawa"@.len() == 7);
    assert("grid"@[0] == 'g');
    assert("sqrt"@[0] == 's');
    reveal_strlit("text");
    reveal_strlit("json");
    reveal_strlit("msgpack");
    reveal_strlit("messagepack");
    assert("text"@.len() == 4);
    assert("json"@.len() == 4);
    assert("msgpack"@.len() == 7);
    assert("messagepack"@.len() == 11);
    assert("text"@[0] == 't');
    assert("json"@[0] == 'j');
    lemma_switch_words_differ();
    reveal_strlit("");
}

/// What truth values words have.
proof fn lemma_truth(w: Seq<char>)
    requires
        trim(w) == w,
    ensures
        truth_of(w) == Some(true) <==> is_yes(w),
        truth_of(w) == Some(false) <==> is_no(w),
{
    lemma_switch_words_differ();
    reveal_strlit("");
    let v = lower(w);
    if v.len() == 0 {
        assert(v =~= ""@);
    }
}

/// Trimming twice is trimming once.
proof fn lemma_trim_twice(s: Seq<char>)
    ensures
        trim(trim(s)) == trim(s),
        tight(trim(s)),
{
    lemma_trimmed(trim_start(s));
    lemma_trim_start_front(s);
    law_trimming(Seq::empty(), trim(s), Seq::empty());
    assert(Seq::<char>::empty() + trim(s) + Seq::<char>::empty() =~= trim(s));
}

/// What is trimmed at its front does not begin with whitespace.
proof fn lemma_trim_start_front(s: Seq<char>)
    ensures
        trim_start(s).len() > 0 ==> !white(trim_start(s)[0]),
    decreases s.len(),
{
    if s.len() > 0 && white(s[0]) {
        lemma_trim_start_front(s.skip(1));
    }
}

/// What is trimmed at its end is a beginning of the text and does not end with whitespace.
proof fn lemma_trimmed(s: Seq<char>)
    ensures
        crate::text::trim_end(s).len() > 0 ==> !white(crate::text::trim_end(s).last())
            && crate::text::trim_end(s)[0] == s[0],
    decreases s.len(),
{
    if s.len() > 0 && white(s.last()) {
        lemma_trimmed(s.drop_last());
    }
}

/// What is said is what is set.
proof fn lemma_said(env: Table<Seq<char>>, cli: Table<Seq<char>>, key: Seq<char>)
    ensures
        setting(cli, env, key) == said(env, cli, key),
        said(env, cli, key) matches Some(w) ==> trim(w) == w,
        optional(cli, env, key) == match said(env, cli, key) {
            Some(w) => if w.len() == 0 {
                None
            } else {
                Some(w)
            },
            None => None,
        },
{
    if let Some(v) = cli.get(key) {
        lemma_trim_twice(v);
    }
    if let Some(v) = env.get(key) {
        lemma_trim_twice(v);
    }
}

/// The codec.
proof fn lemma_codec(env: Table<Seq<char>>, cli: Table<Seq<char>>, codec: WireCodec)
    ensures
        codec_setting(cli, env) == Ok::<WireCodec, ErrorView>(codec) <==> chooses_codec(
            env,
            cli,
            codec,
        ),
{
    lemma_words_decide();
    lemma_said(env, cli, "LMX_CODEC"@);
}

/// The policy.
proof fn lemma_policy(env: Table<Seq<char>>, cli: Table<Seq<char>>, policy: QuorumPolicy)
    ensures
        policy_setting(cli, env) == Ok::<QuorumPolicy, ErrorView>(policy) <==> chooses_policy(
            env,
            cli,
            policy,
        ),
{
    lemma_words_decide();
    lemma_said(env, cli, "LMX_QUORUM_POLICY"@);
    if let Some(w) = said(env, cli, "LMX_QUORUM_POLICY"@) {
        assert(!(is_grid_word(w) && is_majority_word(w)));
    }
}

/// A switch.
proof fn lemma_bool(
    env: Table<Seq<char>>,
    cli: Table<Seq<char>>,
    key: Seq<char>,
    otherwise: bool,
    b: bool,
)
    ensures
        bool_setting(cli, env, key, otherwise) == Ok::<bool, ErrorView>(b) <==> chooses_bool(
            env,
            cli,
            key,
            otherwise,
            b,
        ),
{
    lemma_said(env, cli, key);
    if let Some(w) = said(env, cli, key) {
        lemma_truth(w);
    }
}

/// A number.
proof fn lemma_number(
    env: Table<Seq<char>>,
    cli: Table<Seq<char>>,
    key: Seq<char>,
    otherwise: u64,
    min: u64,
    max: u64,
    n: u64,
)
    ensures
        number_setting(cli, env, key, otherwise, min, max) == Ok::<u64, ErrorView>(n)
            <==> chooses_number(
            env,
            cli,
            key,
            otherwise as nat,
            min as nat,
            max as nat,
            n as nat,
        ),
{
    lemma_said(env, cli, key);
}

/// A listener.
proof fn lemma_listener(
    env: Table<Seq<char>>,
    cli: Table<Seq<char>>,
    key: Seq<char>,
    addr: Option<Seq<char>>,
)
    ensures
        listener_setting(cli, env, key) == Ok::<Option<Seq<char>>, ErrorView>(addr)
            <==> chooses_listener(env, cli, key, addr),
{
    lemma_said(env, cli, key);
}

/// The transport.
proof fn lemma_transport(
    env: Table<Seq<char>>,
    cli: Table<Seq<char>>,
    codec: WireCodec,
    t: TransportSettings,
)
    ensures
        transport_setting(cli, env, codec) == Ok::<TransportSettings, ErrorView>(t) <==> {
            &&& t.codec == codec
            &&& chooses_policy(env, cli, t.quorum_policy)
            &&& chooses_number(
                env,
                cli,
                "LMX_CONNECT_RETRY_MS"@,
                150,
                10,
                60_000,
                t.connect_retry.millis as nat,
            )
            &&& chooses_number(env, cli, "LMX_TICK_MS"@, 500, 10, 2_000, t.tick.millis as nat)
            &&& chooses_number(
                env,
                cli,
                "LMX_MAX_FRAME_BYTES"@,
                1_048_576,
                128,
                67_108_864,
                t.max_line_frame as nat,
            )
        },
{
    lemma_policy(env, cli, t.quorum_policy);
    lemma_number(
        env,
        cli,
        "LMX_CONNECT_RETRY_MS"@,
        150,
        10,
        60_000,
        t.connect_retry.millis,
    );
    lemma_number(env, cli, "LMX_TICK_MS"@, 500, 10, 2_000, t.tick.millis);
    lemma_number(
        env,
        cli,
        "LMX_MAX_FRAME_BYTES"@,
        1_048_576,
        128,
        67_108_864,
        t.max_line_frame as u64,
    );
    if let Ok(n) = number_setting(
        cli,
        env,
        "LMX_MAX_FRAME_BYTES"@,
        1_048_576,
        128,
        67_108_864,
    ) {
        lemma_number(env, cli, "LMX_MAX_FRAME_BYTES"@, 1_048_576, 128, 67_108_864, n);
        assert(n <= 67_108_864);
        assert((n as usize) as u64 == n);
    }
}

/// The workload.
proof fn lemma_demo(env: Table<Seq<char>>, cli: Table<Seq<char>>, d: DemoView)
    ensures
        demo_setting(cli, env) == Ok::<DemoView, ErrorView>(d) <==> {
            &&& chooses_bool(env, cli, "LMX_DEMO"@, false, d.enabled)
            &&& chooses_keys(env, cli, d.keys)
            &&& d.enabled ==> keys_fit(d.keys)
            &&& chooses_number(
                env,
                cli,
                "LMX_DEMO_HOLD_MS"@,
                800,
                1,
                3_600_000,
                d.hold.millis as nat,
            )
            &&& chooses_number(
                env,
                cli,
                "LMX_DEMO_REST_MS"@,
                400,
                1,
                3_600_000,
                d.rest.millis as nat,
            )
        },
{
    lemma_bool(env, cli, "LMX_DEMO"@, false, d.enabled);
    lemma_said(env, cli, "LMX_DEMO_KEYS"@);
    lemma_number(env, cli, "LMX_DEMO_HOLD_MS"@, 800, 1, 3_600_000, d.hold.millis);
    lemma_number(env, cli, "LMX_DEMO_REST_MS"@, 400, 1, 3_600_000, d.rest.millis);
}

/// The place of the node.
proof fn lemma_place(
    env: Table<Seq<char>>,
    cli: Table<Seq<char>>,
    arguments: Seq<Seq<char>>,
    id: NodeId,
    addrs: Seq<Seq<char>>,
)
    ensures
        node_id_setting(cli, env, arguments) == Ok::<NodeId, ErrorView>(id) <==> chooses_id(
            env,
            cli,
            arguments,
            id,
        ),
        peers_setting(cli, env, arguments) == Ok::<Seq<Seq<char>>, ErrorView>(addrs) <==> {
            chooses_addrs(env, cli, arguments, addrs) && good_addrs(addrs)
        },
{
    lemma_said(env, cli, "LMX_NODE_ID"@);
    lemma_said(env, cli, "LMX_PEER_ADDRS"@);
    lemma_good_addrs(addrs, addrs.len());
}

/// **A configuration is what was chosen.** A configuration is accepted exactly if everything
/// in it was chosen: by a word or a number that the setting takes, or by saying nothing.
pub proof fn law_configurations_are_chosen(
    env: Table<Seq<char>>,
    cli: Table<Seq<char>>,
    c: ConfigView,
)
    ensures
        reconciled(env, cli) == Ok::<ConfigView, ErrorView>(c) <==> chooses(env, cli, c),
{
    lemma_codec(env, cli, c.codec);
    lemma_listener(env, cli, "LMX_CLIENT_HTTP"@, c.client_http);
    lemma_listener(env, cli, "LMX_CLIENT_TCP"@, c.client_tcp);
    lemma_bool(env, cli, "LMX_STDIN"@, true, c.stdin);
    lemma_bool(env, cli, "LMX_LOG_INFO"@, true, c.log_info);
    lemma_transport(env, cli, c.codec, c.transport);
    lemma_demo(env, cli, c.demo);
    if let Ok(arguments) = positional_arguments(cli) {
        lemma_place(env, cli, arguments, c.id, c.addrs);
    }
}

/// **The quorum policy.** A configuration that is accepted with the policy set to `grid`,
/// `sqrt` or `maekawa`, in any case, has the grid; with `majority` or `maj`, or without any,
/// it has majorities. With any other word there is no configuration.
pub proof fn law_quorum_policy_is_chosen(env: Table<Seq<char>>, cli: Table<Seq<char>>)
    ensures
        reconciled(env, cli) matches Ok(c) ==> match said(env, cli, "LMX_QUORUM_POLICY"@) {
            None => c.transport.quorum_policy == QuorumPolicy::Majority,
            Some(w) => {
                let policy = c.transport.quorum_policy;
                &&& lower(w) == "grid"@ || lower(w) == "sqrt"@ || lower(w) == "maekawa"@
                    ==> policy == QuorumPolicy::Grid
                &&& lower(w) == "majority"@ || lower(w) == "maj"@ ==> policy
                    == QuorumPolicy::Majority
            },
        },
        said(env, cli, "LMX_QUORUM_POLICY"@) matches Some(w) ==> !is_grid_word(w)
            && !is_majority_word(w) ==> reconciled(env, cli) is Err,
{
    lemma_words_decide();
    if let Some(w) = said(env, cli, "LMX_QUORUM_POLICY"@) {
        assert(!(is_grid_word(w) && is_majority_word(w)));
    }
    if let Ok(c) = reconciled(env, cli) {
        law_configurations_are_chosen(env, cli, c);
    }
}

/// **Switches** take the usual words, in any case and with whitespace around them; nothing
/// at all means no, and any other word is refused.
pub proof fn law_switches_take_words(raw: Seq<char>)
    ensures
        is_yes(trim(raw)) ==> truth_of(raw) == Some(true),
        is_no(trim(raw)) ==> truth_of(raw) == Some(false),
        !is_yes(trim(raw)) && !is_no(trim(raw)) ==> truth_of(raw) is None,
{
    lemma_trim_twice(raw);
    lemma_truth(trim(raw));
}

// ---- lists and addresses --------------------------------------------------------------------------
/// **Lists are divided by commas.** Whitespace around the parts is left out, and so are blank
/// parts.
pub proof fn law_lists_are_divided_by_commas(
    list: Seq<char>,
    front: Seq<char>,
    part: Seq<char>,
    back: Seq<char>,
)
    requires
        blank(front),
        blank(back),
        tight(part),
        lacks(part, ','),
    ensures
        part.len() > 0 ==> comma_list(front + part + back) == seq![part],
        part.len() > 0 ==> comma_list(list + ","@ + (front + part + back)) == comma_list(
            list,
        ).push(part),
        part.len() == 0 ==> comma_list(front + part + back) == Seq::<Seq<char>>::empty(),
        part.len() == 0 ==> comma_list(list + ","@ + (front + part + back)) == comma_list(list),
{
    reveal_strlit(",");
    assert(","@ =~= seq![',']);
    let piece = front + part + back;
    assert(!white(','));
    assert forall|i: int| 0 <= i < piece.len() implies #[trigger] piece[i] != ',' by {
        if i < front.len() {
            assert(piece[i] == front[i]);
        } else if i < front.len() + part.len() {
            assert(piece[i] == part[i - front.len()]);
        } else {
            assert(piece[i] == back[i - front.len() - part.len()]);
        }
    }
    law_splitting(list, ',', piece);
    law_trimming(front, part, back);
    assert(seq![piece].drop_last() =~= Seq::<Seq<char>>::empty());
    assert(cleaned(Seq::<Seq<char>>::empty()) =~= Seq::<Seq<char>>::empty());
    let parts = split(list, ',').push(piece);
    assert(parts.drop_last() =~= split(list, ','));
    assert(parts.last() == piece);
    if part.len() > 0 {
        assert(cleaned(seq![piece]) =~= seq![part]);
    }
}

/// Where the last occurrence is.
proof fn lemma_last_position(s: Seq<char>, c: char, t: Seq<char>)
    requires
        lacks(t, c),
    ensures
        last_position(s + seq![c] + t, c) == s.len(),
        last_position(t, c) == -1,
    decreases t.len(),
{
    let all = s + seq![c] + t;
    if t.len() == 0 {
        assert(all.last() == c);
    } else {
        assert(all.last() == t[t.len() - 1]);
        assert(all.drop_last() =~= s + seq![c] + t.drop_last());
        lemma_last_position(s, c, t.drop_last());
    }
}

/// Whitespace is found.
proof fn lemma_has_white(s: Seq<char>)
    ensures
        has_white(s) <==> !solid(s),
        0 <= word_end(s) <= s.len(),
    decreases s.len(),
{
    if s.len() > 0 && !white(s[0]) {
        let rest = s.skip(1);
        lemma_has_white(rest);
        if solid(s) {
            assert forall|i: int| 0 <= i < rest.len() implies !white(#[trigger] rest[i]) by {
                assert(rest[i] == s[i + 1]);
            }
        }
        if solid(rest) {
            assert forall|i: int| 0 <= i < s.len() implies !white(#[trigger] s[i]) by {
                if i > 0 {
                    assert(s[i] == rest[i - 1]);
                }
            }
        }
    }
}

/// **Addresses look like `host:port`.** There is a host, which does not begin like a flag,
/// no whitespace, and a port that is a number up to 65535.
pub proof fn law_addresses_look_like_host_and_port(host: Seq<char>, port: nat, s: Seq<char>)
    ensures
        host.len() > 0 && host[0] != '-' && host[0] != ':' && solid(host) && port <= 65_535
            ==> socketish(host + ":"@ + decimal(port)),
        port > 65_535 ==> !socketish(host + ":"@ + decimal(port)),
        !solid(s) ==> !socketish(s),
        lacks(s, ':') ==> !socketish(s),
        s.len() > 0 && (s[0] == '-' || s[0] == ':') ==> !socketish(s),
        !socketish(Seq::empty()),
        lacks(s, ':') && parse_number(s, 65_535) is None ==> !socketish(host + ":"@ + s),
{
    reveal_strlit(":");
    assert(":"@ =~= seq![':']);
    let digits = decimal(port);
    lemma_decimal(port);
    crate::text::lemma_decimal_no_white(port);
    assert forall|i: int| 0 <= i < digits.len() implies #[trigger] digits[i] != ':' by {
        assert(crate::text::is_digit(digits[i]));
    }
    assert(crate::text::is_digit(digits[0]));
    let all = host + ":"@ + digits;
    lemma_last_position(host, ':', digits);
    assert(all.skip(host.len() as int + 1) =~= digits);
    lemma_has_white(all);
    lemma_has_white(s);
    if host.len() > 0 && solid(host) {
        assert(!white(':'));
        assert forall|i: int| 0 <= i < all.len() implies !white(#[trigger] all[i]) by {
            if i < host.len() {
                assert(all[i] == host[i]);
            } else if i > host.len() {
                assert(all[i] == digits[i - host.len() - 1]);
            }
        }
        assert(all[0] == host[0]);
    }
    if lacks(s, ':') {
        lemma_last_position(s, ':', s);
        lemma_last_position(host, ':', s);
        assert((host + ":"@ + s).skip(host.len() as int + 1) =~= s);
    }
}

/// **Addresses are listed between commas**, unless the list is written as JSON. Either way
/// whitespace around them is left out, and so are blank ones.
pub proof fn law_addresses_are_listed(raw: Seq<char>, list: Seq<Seq<char>>, part: Seq<char>)
    ensures
        trim_start(raw).len() == 0 || trim_start(raw)[0] != '[' ==> addrs_in(raw) == Some(
            comma_list(raw),
        ),
        trim_start(raw).len() > 0 && trim_start(raw)[0] == '[' ==> match text_list(
            json_value(raw),
        ) {
            Some(list) => addrs_in(raw) == Some(cleaned(list)),
            None => addrs_in(raw) is None,
        },
        cleaned(Seq::empty()) == Seq::<Seq<char>>::empty(),
        trim(part).len() > 0 ==> cleaned(list.push(part)) == cleaned(list).push(trim(part)),
        trim(part).len() == 0 ==> cleaned(list.push(part)) == cleaned(list),
{
    assert(list.push(part).drop_last() =~= list);
}

/// **The place of a node.** It is among the addresses, which are neither blank nor repeated;
/// the first fault in this order is the one that is named.
pub proof fn law_places_are_among_the_addresses(id: NodeId, addrs: Seq<Seq<char>>)
    ensures
        config_error(id, addrs) is None ==> id < addrs.len() && addrs.no_duplicates()
            && forall|i: int| 0 <= i < addrs.len() ==> trim(#[trigger] addrs[i]).len() > 0,
        config_error(id, addrs) == Some(ConfigError::NoAddresses) <==> addrs.len() == 0,
        config_error(id, addrs) == Some(ConfigError::IdOutsideAddresses) <==> 0 < addrs.len()
            <= id,
        config_error(id, addrs) == Some(ConfigError::EmptyAddress) <==> id < addrs.len()
            && exists|i: int| 0 <= i < addrs.len() && trim(#[trigger] addrs[i]).len() == 0,
        config_error(id, addrs) == Some(ConfigError::RepeatedAddress) ==> !addrs.no_duplicates(),
        config_error(id, addrs) != Some(ConfigError::EmptyInterval) && config_error(id, addrs)
            != Some(ConfigError::EmptyFrame),
{
}

/// **What holds where nothing is set**: text, majorities, and times that suit the lease.
pub proof fn law_usual_settings()
    ensures
        ({
            let t = TransportSettings::usual();
            &&& t.codec is Text
            &&& t.quorum_policy is Majority
            &&& t.connect_retry.millis == 150
            &&& t.tick.millis == 500
            &&& t.max_line_frame == 1024 * 1024
        }),
        MAX_COMPOSITE_KEYS == 3,
{
}

/// **Keys fit together** if there are some, none is empty, and at most three differ.
pub proof fn law_keys_fit_together(keys: Seq<Seq<char>>)
    ensures
        keys_fit(keys) <==> keys.len() > 0 && keys.to_set().len() <= 3 && forall|i: int|
            0 <= i < keys.len() ==> (#[trigger] keys[i]).len() > 0,
{
}

/// **Greetings** name the node and the codec; without a codec it is text. Anything else is
/// none.
pub proof fn law_greetings(id: NodeId, codec: WireCodec, line: Seq<char>)
    ensures
        hello(id, codec) == "HELLO "@ + decimal(id as nat) + " "@ + (match codec {
            WireCodec::Text => "text"@,
            WireCodec::Json => "json"@,
            WireCodec::Msgpack => "msgpack"@,
        }),
        greeting("HELLO"@ + " "@ + decimal(id as nat)) == Some((id, WireCodec::Text)),
        crate::text::words(line).len() == 0 || crate::text::words(line)[0] != "HELLO"@
            ==> greeting(line) is None,
        crate::text::words(line).len() != 2 && crate::text::words(line).len() != 3 ==> greeting(
            line,
        ) is None,
{
    reveal_strlit("HELLO");
    crate::text::lemma_decimal_no_white(id as nat);
    law_decimal_reads_back(id as nat, u32::MAX as nat);
    assert(solid("HELLO"@));
    law_words(Seq::empty(), "HELLO"@);
    law_words("HELLO"@, decimal(id as nat));
    let w = crate::text::words("HELLO"@ + " "@ + decimal(id as nat));
    assert(w[0] == "HELLO"@ && w[1] == decimal(id as nat));
}

// ---- the command line -----------------------------------------------------------------------------
/// **What the parser hands over.** Without complaints there are none; complaints go first,
/// then unknown options; then the arguments are taken.
pub proof fn law_complaints_go_first(cli: Table<Seq<char>>)
    ensures
        cli.get("LMX_PARSE_ERRORS"@) is None && cli.get("LMX_UNKNOWN_OPTIONS"@) is None
            && cli.get("LMX_POSITIONALS"@) is None ==> positional_arguments(cli) == Ok::<
            Seq<Seq<char>>,
            ErrorView,
        >(Seq::empty()),
        cli.get("LMX_PARSE_ERRORS"@) matches Some(raw) ==> match text_list(json_value(raw)) {
            None => positional_arguments(cli) is Err,
            Some(list) => list.len() > 0 ==> positional_arguments(cli) == Err::<
                Seq<Seq<char>>,
                ErrorView,
            >(ErrorView::CliParseErrors(list)),
        },
        cli.get("LMX_PARSE_ERRORS"@) is None ==> (cli.get("LMX_UNKNOWN_OPTIONS"@) matches Some(
            raw,
        ) ==> match text_list(json_value(raw)) {
            None => positional_arguments(cli) is Err,
            Some(list) => list.len() > 0 ==> positional_arguments(cli) == Err::<
                Seq<Seq<char>>,
                ErrorView,
            >(ErrorView::UnknownCliOptions(list)),
        }),
        cli.get("LMX_PARSE_ERRORS"@) is None && cli.get("LMX_UNKNOWN_OPTIONS"@) is None ==> (
        cli.get("LMX_POSITIONALS"@) matches Some(raw) ==> match text_list(json_value(raw)) {
            None => positional_arguments(cli) is Err,
            Some(list) => positional_arguments(cli) == Ok::<Seq<Seq<char>>, ErrorView>(list),
        }),
{
}

/// **Lists of texts** have texts and nothing else in them.
pub proof fn law_lists_of_texts(items: Seq<JsonView>, s: Seq<char>, v: JsonView)
    ensures
        text_list(Some(JsonView::Array(Seq::empty()))) == Some(Seq::<Seq<char>>::empty()),
        text_list(Some(JsonView::Array(items))) matches Some(list) ==> text_list(
            Some(JsonView::Array(items.push(JsonView::Str(s)))),
        ) == Some(list.push(s)),
        !(v is Str) ==> text_list(Some(JsonView::Array(items.push(v)))) is None,
        text_list(None) is None,
        !(v is Array) ==> text_list(Some(v)) is None,
{
    assert(items.push(JsonView::Str(s)).drop_last() =~= items);
    assert(items.push(v).drop_last() =~= items);
}

/// **Later settings win**: of two with one name the last one holds.
pub proof fn law_later_settings_win(
    pairs: Seq<(Seq<char>, Seq<char>)>,
    key: Seq<char>,
    value: Seq<char>,
    other: Seq<char>,
)
    ensures
        settings_of(Seq::empty()).get(key) is None,
        settings_of(pairs.push((key, value))).get(key) == Some(value),
        other != key ==> settings_of(pairs.push((key, value))).get(other) == settings_of(
            pairs,
        ).get(other),
{
    assert(pairs.push((key, value)).drop_last() =~= pairs);
}

/// A flag that names a contract.
pub open spec fn names_contract(flag: Seq<char>) -> bool {
    flag == "--config"@ || flag == "--cli-flags"@ || flag == "--cli-flags-config"@
}

/// **Flags that name a contract** have it behind an equals sign or as the next argument; none
/// of this is handed on. The flag without a contract is refused.
pub proof fn law_contracts_are_named_by_flags(
    flag: Seq<char>,
    path: Seq<char>,
    rest: Seq<Seq<char>>,
    other: Seq<char>,
)
    requires
        names_contract(flag),
        trim(path).len() > 0,
    ensures
        selector(seq![flag, path] + rest) == Ok::<Option<Seq<char>>, ErrorView>(Some(path)),
        selector(seq![flag + "="@ + path] + rest) == Ok::<Option<Seq<char>>, ErrorView>(
            Some(path),
        ),
        selector(seq![flag]) == Err::<Option<Seq<char>>, ErrorView>(
            ErrorView::MissingCliValue(flag),
        ),
        selector(seq![flag + "="@]) == Err::<Option<Seq<char>>, ErrorView>(
            ErrorView::InvalidConfigFlag(flag + "="@),
        ),
        selector(seq!["--"@] + rest) == Ok::<Option<Seq<char>>, ErrorView>(None),
        selector(Seq::empty()) == Ok::<Option<Seq<char>>, ErrorView>(None),
        other.len() > 0 && other[0] != '-' ==> selector(seq![other] + rest) == selector(rest),
        stripped(seq![flag, path] + rest) == stripped(rest),
        stripped(seq![flag + "="@ + path] + rest) == stripped(rest),
        stripped(seq![flag]) is Err,
        stripped(Seq::empty()) == Ok::<Seq<Seq<char>>, ErrorView>(Seq::empty()),
        other.len() > 0 && other[0] != '-' ==> (stripped(rest) matches Ok(kept) ==> stripped(
            seq![other] + rest,
        ) == Ok::<Seq<Seq<char>>, ErrorView>(seq![other] + kept)),
{
    reveal_strlit("--config");
    reveal_strlit("--cli-flags");
    reveal_strlit("--cli-flags-config");
    reveal_strlit("--config=");
    reveal_strlit("--cli-flags=");
    reveal_strlit("--cli-flags-config=");
    reveal_strlit("--");
    reveal_strlit("=");
    let both = seq![flag, path] + rest;
    assert(both[0] == flag && both[1] == path);
    assert(both.skip(2) =~= rest);
    let joined = flag + "="@ + path;
    let bare = flag + "="@;
    assert((seq![joined] + rest)[0] == joined);
    assert((seq![joined] + rest).skip(1) =~= rest);
    assert((seq![other] + rest)[0] == other);
    assert((seq![other] + rest).skip(1) =~= rest);
    assert((seq!["--"@] + rest)[0] == "--"@);
    lemma_selected(flag, path);
    lemma_selected(flag, Seq::empty());
    assert(flag + "="@ + Seq::<char>::empty() =~= bare);
    assert(trim(Seq::<char>::empty()) =~= Seq::<char>::empty());
    if other.len() > 0 && other[0] != '-' {
        lemma_no_flag(other);
    }
}

/// An argument that is no flag names nothing.
proof fn lemma_no_flag(arg: Seq<char>)
    requires
        arg.len() > 0,
        arg[0] != '-',
    ensures
        selected(arg) is None,
        !is_selector(arg),
        arg != "--"@,
        !begins(arg, "--config"@) && !begins(arg, "--cli-flags"@),
{
    reveal_strlit("--config");
    reveal_strlit("--cli-flags");
    reveal_strlit("--cli-flags-config");
    reveal_strlit("--config=");
    reveal_strlit("--cli-flags=");
    reveal_strlit("--cli-flags-config=");
    reveal_strlit("--");
    assert forall|front: Seq<char>| front.len() > 0 && front[0] == '-' implies !(#[trigger] begins(
        arg,
        front,
    )) by {
        if begins(arg, front) {
            assert(arg.take(front.len() as int)[0] == arg[0]);
        }
    }
    assert("--config="@[0] == '-' && "--cli-flags="@[0] == '-' && "--cli-flags-config="@[0]
        == '-');
    assert("--config"@[0] == '-' && "--cli-flags"@[0] == '-' && "--cli-flags-config"@[0] == '-');
    assert("--"@[0] == '-');
}

/// What stands behind the equals sign.
proof fn lemma_selected(flag: Seq<char>, path: Seq<char>)
    requires
        names_contract(flag),
    ensures
        selected(flag + "="@ + path) == Some(path),
        selected(flag) is None,
        is_selector(flag),
        flag != "--"@,
        flag + "="@ + path != "--"@,
{
    reveal_strlit("--config");
    reveal_strlit("--cli-flags");
    reveal_strlit("--cli-flags-config");
    reveal_strlit("--config=");
    reveal_strlit("--cli-flags=");
    reveal_strlit("--cli-flags-config=");
    reveal_strlit("--");
    reveal_strlit("=");
    let s = flag + "="@ + path;
    if flag == "--config"@ {
        assert(s.take(9) =~= "--config="@);
        assert(s.skip(9) =~= path);
    } else if flag == "--cli-flags"@ {
        assert("--config="@[2] == 'c' && "--config="@[3] == 'o');
        assert(s[3] == flag[3] && flag[3] == 'l');
        if begins(s, "--config="@) {
            assert(s.take(9)[3] == s[3]);
        }
        assert(s.take(12) =~= "--cli-flags="@);
        assert(s.skip(12) =~= path);
    } else {
        assert("--config="@[3] == 'o');
        assert(s[3] == flag[3] && flag[3] == 'l');
        if begins(s, "--config="@) {
            assert(s.take(9)[3] == s[3]);
        }
        assert(s[11] == flag[11] && flag[11] == '-');
        assert("--cli-flags="@[11] == '=');
        if begins(s, "--cli-flags="@) {
            assert(s.take(12)[11] == s[11]);
        }
        assert(s.take(19) =~= "--cli-flags-config="@);
        assert(s.skip(19) =~= path);
    }
    if selected(flag) is Some {
        if begins(flag, "--config="@) {
            assert(flag.take(9)[8] == flag[8] && "--config="@[8] == '=');
            assert(flag.take(9)[3] == flag[3] && "--config="@[3] == 'o');
            assert(flag.len() >= 9);
            assert(flag[3] == 'l' || flag.len() == 8);
        } else if begins(flag, "--cli-flags="@) {
            assert(flag.take(12)[11] == flag[11] && "--cli-flags="@[11] == '=');
            assert(flag.len() >= 12);
            assert(flag[11] == '-');
        }
    }
}

/// **Help is asked for** by `--help` or `-h`, anywhere among the arguments; it is the usage
/// and the table of flags, if there is one.
pub proof fn law_help(args: Seq<Seq<char>>, table: Seq<char>)
    ensures
        args.contains("--help"@) || args.contains("-h"@) <==> asks_help(args),
        trim(table).len() > 0 ==> help_text(table) == usage() + "\n\n"@ + table,
        trim(table).len() == 0 ==> help_text(table) == usage() + "\n"@,
{
}

/// How the broker is called.
pub open spec fn usage() -> Seq<char> {
    "usage: lmxd [--codec text|json|msgpack] [--client-http addr] [--client-tcp addr] <my_id> <addr_0> <addr_1> ... <addr_{n-1}>"@
}

/// **Contracts are looked for in order**: the one that the arguments name, then those that
/// the environment names; and if none is named, beside the program and then at its sources,
/// where the first that is there is taken.
pub proof fn law_contracts_are_looked_for_in_order(
    env: Table<Seq<char>>,
    args: Seq<Seq<char>>,
    path: Seq<char>,
    dir: Seq<char>,
    sources: Seq<Seq<char>>,
    found: Seq<Option<String>>,
)
    ensures
        args.len() > 0 && selector(args.skip(1)) == Ok::<Option<Seq<char>>, ErrorView>(Some(path))
            ==> named_contract(env, args) == Ok::<Option<Seq<char>>, ErrorView>(Some(path)),
        args.len() > 0 && selector(args.skip(1)) is Err ==> named_contract(env, args) is Err,
        args.len() > 0 && selector(args.skip(1)) == Ok::<Option<Seq<char>>, ErrorView>(None) ==> ({
            let empty = Table::<Seq<char>>::empty();
            named_contract(env, args) == Ok::<Option<Seq<char>>, ErrorView>(
                if said(env, empty, "LMX_CLI_FLAGS_CONFIG"@) is Some {
                    said(env, empty, "LMX_CLI_FLAGS_CONFIG"@)
                } else {
                    said(env, empty, "FLAGS2ENV_CONFIG"@)
                },
            )
        }),
        candidate_paths(Some(dir), sources) == seq![
            dir + "/../share/live-mutex-mills/.cli-flags.toml"@,
            dir + "/.cli-flags.toml"@,
        ] + sources,
        candidate_paths(None, sources) == sources,
        first_found(Seq::empty()) is None,
        found.len() > 0 ==> (found[0] matches Some(p) ==> first_found(found) == Some(p@)),
        found.len() > 0 && found[0] is None ==> first_found(found) == first_found(found.skip(1)),
{
}

/// **The outcome of a start.** What is wrong with the flags that name a contract is told
/// first, then what is wrong with the contract; then help is given to who asks for it; then
/// the settings that the parser found are put over the environment.
pub proof fn law_outcome_of_a_start(
    env: Table<Seq<char>>,
    args: Seq<Seq<char>>,
    parse: CliParse,
    rest: Seq<Seq<char>>,
)
    requires
        args.len() > 0,
    ensures
        selector(args.skip(1)) matches Err(e) ==> configured(env, args, parse) == Err::<
            ConfigView,
            ErrorView,
        >(e),
        selector(args.skip(1)) is Ok ==> (parse.contract matches Err(e) ==> configured(
            env,
            args,
            parse,
        ) == Err::<ConfigView, ErrorView>(e@)),
        selector(args.skip(1)) is Ok && parse.contract is Ok && stripped(args.skip(1)) == Ok::<
            Seq<Seq<char>>,
            ErrorView,
        >(rest) ==> {
            &&& rest.contains("--help"@) || rest.contains("-h"@) ==> (parse.help_table matches Ok(
                table,
            ) ==> configured(env, args, parse) == Err::<ConfigView, ErrorView>(
                ErrorView::HelpRequested(help_text(table@)),
            ))
            &&& !rest.contains("--help"@) && !rest.contains("-h"@) ==> {
                &&& parse.overrides matches Err(e) ==> configured(env, args, parse) == Err::<
                    ConfigView,
                    ErrorView,
                >(e@)
                &&& parse.overrides matches Ok(raw) ==> match json_texts(raw@) {
                    Some(pairs) => configured(env, args, parse) == reconciled(
                        env,
                        settings_of(pairs),
                    ),
                    None => configured(env, args, parse) is Err,
                }
            }
        },
{
}

// ---- what people are told -------------------------------------------------------------------------
/// The error names the setting that is at fault.
pub open spec fn names_the_fault(
    env: Table<Seq<char>>,
    cli: Table<Seq<char>>,
    e: ErrorView,
) -> bool {
    match e {
        ErrorView::InvalidQuorumPolicy(w) => said(env, cli, "LMX_QUORUM_POLICY"@) == Some(w)
            && !is_grid_word(w) && !is_majority_word(w),
        ErrorView::InvalidCodec(w) => said(env, cli, "LMX_CODEC"@) == Some(w) && lower(w)
            != "text"@ && lower(w) != "json"@ && lower(w) != "msgpack"@ && lower(w)
            != "messagepack"@,
        ErrorView::MissingNodeId => said(env, cli, "LMX_NODE_ID"@) is None,
        ErrorView::InvalidNodeId(w) => parse_number(w, u32::MAX as nat) is None,
        ErrorView::MissingPeerAddrs => said(env, cli, "LMX_PEER_ADDRS"@) is None,
        ErrorView::InvalidSocketAddr { env: key, .. } => key == "LMX_PEER_ADDRS"@ || match said(
            env,
            cli,
            key,
        ) {
            Some(w) => w.len() > 0 && !socketish(w),
            None => false,
        },
        ErrorView::InvalidDemoKeys(_) => chooses_bool(env, cli, "LMX_DEMO"@, false, true)
            && forall|keys: Seq<Seq<char>>| #[trigger]
            chooses_keys(env, cli, keys) ==> !keys_fit(keys),
        ErrorView::InvalidBool { env: key, .. } => match said(env, cli, key) {
            Some(w) => !is_yes(w) && !is_no(w),
            None => false,
        },
        ErrorView::InvalidNumber { env: key, .. } => match said(env, cli, key) {
            Some(w) => parse_number(w, u64::MAX as nat) is None,
            None => false,
        },
        ErrorView::NumberOutOfRange { env: key, value, min, max } => match said(env, cli, key) {
            Some(w) => parse_number(w, u64::MAX as nat) == Some(value as nat) && (value < min
                || value > max),
            None => false,
        },
        _ => true,
    }
}

/// A switch or a number at fault is named.
proof fn lemma_fault_named(
    env: Table<Seq<char>>,
    cli: Table<Seq<char>>,
    key: Seq<char>,
    otherwise: bool,
    n: u64,
    min: u64,
    max: u64,
)
    ensures
        bool_setting(cli, env, key, otherwise) matches Err(e) ==> names_the_fault(env, cli, e),
        number_setting(cli, env, key, n, min, max) matches Err(e) ==> names_the_fault(env, cli, e),
{
    lemma_said(env, cli, key);
    if let Some(w) = said(env, cli, key) {
        lemma_truth(w);
    }
}

/// No other fault is told of addresses.
proof fn lemma_addrs_fault(addrs: Seq<Seq<char>>, n: nat)
    ensures
        addrs_fault(addrs, n) matches Some(e) ==> e is InvalidPeerAddrs || (
        e matches ErrorView::InvalidSocketAddr { env: key, .. } && key == "LMX_PEER_ADDRS"@),
    decreases n,
{
    if n > 0 {
        lemma_addrs_fault(addrs, (n - 1) as nat);
    }
}

/// **Faults are named for what they are.** An error about a setting says which one it is, and
/// that setting is indeed at fault.
pub proof fn law_faults_are_named(env: Table<Seq<char>>, cli: Table<Seq<char>>)
    ensures
        reconciled(env, cli) matches Err(e) ==> names_the_fault(env, cli, e),
{
    lemma_said(env, cli, "LMX_QUORUM_POLICY"@);
    lemma_said(env, cli, "LMX_CODEC"@);
    lemma_said(env, cli, "LMX_NODE_ID"@);
    lemma_said(env, cli, "LMX_PEER_ADDRS"@);
    lemma_said(env, cli, "LMX_CLIENT_HTTP"@);
    lemma_said(env, cli, "LMX_CLIENT_TCP"@);
    lemma_said(env, cli, "LMX_DEMO_KEYS"@);
    lemma_bool(env, cli, "LMX_DEMO"@, false, true);
    assert forall|addrs: Seq<Seq<char>>| addrs.len() > 0 && (#[trigger] peers_fault(addrs)) is Some implies names_the_fault(
        env,
        cli,
        peers_fault(addrs)->0,
    ) by {
        lemma_addrs_fault(addrs, addrs.len());
    }
    lemma_fault_named(env, cli, "LMX_STDIN"@, true, 0, 0, 0);
    lemma_fault_named(env, cli, "LMX_LOG_INFO"@, true, 0, 0, 0);
    lemma_fault_named(env, cli, "LMX_DEMO"@, false, 0, 0, 0);
    lemma_fault_named(env, cli, "LMX_CONNECT_RETRY_MS"@, true, 150, 10, 60_000);
    lemma_fault_named(env, cli, "LMX_TICK_MS"@, true, 500, 10, 2_000);
    lemma_fault_named(env, cli, "LMX_MAX_FRAME_BYTES"@, true, 1_048_576, 128, 67_108_864);
    lemma_fault_named(env, cli, "LMX_DEMO_HOLD_MS"@, true, 800, 1, 3_600_000);
    lemma_fault_named(env, cli, "LMX_DEMO_REST_MS"@, true, 400, 1, 3_600_000);
}

/// **Messages say what to do**, and nothing of what was rejected.
pub proof fn law_messages_say_what_to_do(
    key: Seq<char>,
    w: Seq<char>,
    list: Seq<Seq<char>>,
    id: NodeId,
    peers: usize,
    value: u64,
    min: u64,
    max: u64,
)
    ensures
        ErrorView::InvalidQuorumPolicy(w).message()
            == "unknown quorum policy; use majority or grid"@,
        ErrorView::InvalidCodec(w).message() == "unknown codec; use text, json, or msgpack"@,
        ErrorView::MissingNodeId.message() == "missing broker node id"@,
        ErrorView::InvalidNodeId(w).message()
            == "broker node id must be a non-negative integer"@,
        ErrorView::MissingPeerAddrs.message() == "missing broker peer address list"@,
        (ErrorView::NodeIdOutOfRange { id, peers }).message() == "broker node id "@ + decimal(
            id as nat,
        ) + " is outside the "@ + decimal(peers as nat) + "-peer address list"@,
        (ErrorView::InvalidBool { env: key, value: w }).message() == key
            + " must be a boolean value (true/false, 1/0, yes/no, on/off)"@,
        (ErrorView::InvalidSocketAddr { env: key, value: w }).message() == key
            + " must look like host:port with a valid TCP port"@,
        (ErrorView::InvalidNumber { env: key, value: w }).message() == key
            + " must be a non-negative integer"@,
        (ErrorView::NumberOutOfRange { env: key, value, min, max }).message() == key
            + " must be between "@ + decimal(min as nat) + " and "@ + decimal(max as nat)
            + ", got "@ + decimal(value as nat),
        ErrorView::MissingCliValue(w).message() == "missing value after "@ + w,
        ErrorView::CliParseErrors(list).message() == "invalid CLI flag value(s) (count: "@
            + decimal(list.len()) + ")"@,
        ErrorView::UnknownCliOptions(list).message() == "unknown CLI option(s) (count: "@
            + decimal(list.len()) + ")"@,
        ErrorView::InvalidPeerAddrs(w).message()
            == "LMX_PEER_ADDRS must contain at least one valid address"@,
        ErrorView::InvalidDemoKeys(w).message()
            == "LMX_DEMO_KEYS must contain at least one valid key when demo mode is enabled"@,
        ErrorView::InvalidConfigFlag(w).message()
            == "invalid broker contract selector syntax; use --config <absolute-path> or --config=<absolute-path>"@,
        (ErrorView::InvalidJsonList { env: key, value: w }).message() == key
            + " parser metadata is not a JSON string array"@,
        (ErrorView::CliParserJson { raw: w }).message()
            == "broker CLI parser returned invalid JSON"@,
        ErrorView::HelpRequested(w).message() == "help requested"@,
        ErrorView::CliFlagsConfigNotFound.message() == "reviewed broker CLI contract not found"@,
        ErrorView::ExplicitConfigMustBeAbsolute.message()
            == "broker CLI contract selector must be an absolute path"@,
        ErrorView::ExplicitConfigUnreadable.message()
            == "broker CLI contract selector does not name a readable regular file"@,
{
}

} // verus!
