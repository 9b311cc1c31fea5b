use std::collections::BTreeMap;

use live_mutex_mills::broker_runtime_config::{
    argv_json, cli_flags_config_from_args, contract_candidates, explicit_contract, is_socketish,
    overrides_from_json, parse_bool, parse_csv_list, resolve_cli_flags_config_from,
    strip_config_selector, BrokerDemoConfig, BrokerRuntimeConfig, BrokerRuntimeConfigError,
    CliParse, NulError, Probe, Settings, ENV_CLIENT_HTTP, ENV_CLIENT_TCP, ENV_CODEC, ENV_CONNECT_RETRY_MS, ENV_DEMO, ENV_DEMO_HOLD_MS, ENV_DEMO_KEYS,
    ENV_DEMO_REST_MS, ENV_LMX_CLI_FLAGS_CONFIG, ENV_LOG_INFO, ENV_MAX_FRAME_BYTES, ENV_NODE_ID,
    ENV_PARSE_ERRORS, ENV_PEER_ADDRS, ENV_POSITIONALS, ENV_QUORUM_POLICY, ENV_STDIN, ENV_TICK_MS,
    ENV_UNKNOWN_OPTIONS, USAGE,
};
use live_mutex_mills::codec::WireCodec;
use live_mutex_mills::transport::Duration;
use live_mutex_mills::QuorumPolicy;

fn args(values: &[&str]) -> Vec<String> {
    values.iter().map(|value| value.to_string()).collect()
}

fn env(values: &[(&str, &str)]) -> Settings {
    let mut settings = Settings::new();
    for (key, value) in values {
        settings.set(key.to_string(), value.to_string());
    }
    settings
}

/// What the command-line parser hands over for these flags and positional
/// arguments.
fn parsed(flags: &[(&str, &str)], positionals: &[&str]) -> CliParse {
    let mut overrides: BTreeMap<String, String> =
        flags.iter().map(|(k, v)| (k.to_string(), v.to_string())).collect();
    if !positionals.is_empty() {
        let list: Vec<String> = positionals.iter().map(|p| p.to_string()).collect();
        overrides.insert(ENV_POSITIONALS.to_string(), argv_json(&list));
    }
    let overrides = serde_json::to_string(&overrides).unwrap();
    CliParse { contract: Ok(()), help_table: Ok(String::new()), overrides: Ok(overrides) }
}

fn configure(
    env: &Settings,
    args: &Vec<String>,
    flags: &[(&str, &str)],
    positionals: &[&str],
) -> Result<BrokerRuntimeConfig, BrokerRuntimeConfigError> {
    BrokerRuntimeConfig::from_env_and_args(env, args, parsed(flags, positionals))
}

#[test]
fn cli_flags_and_positionals_win_over_env() {
    let env = env(&[
        (ENV_CODEC, "text"),
        (ENV_NODE_ID, "2"),
        (ENV_PEER_ADDRS, "env0:9100,env1:9101,env2:9102"),
        (ENV_CLIENT_HTTP, "127.0.0.1:9990"),
        (ENV_CLIENT_TCP, "127.0.0.1:9991"),
        (ENV_DEMO, "false"),
        (ENV_DEMO_KEYS, "env-a,env-b"),
    ]);
    let config = configure(
        &env,
        &args(&[
            "lmxd",
            "--codec",
            "json",
            "--client-http",
            "127.0.0.1:9200",
            "--client-tcp=127.0.0.1:9300",
            "--demo=yes",
            "--demo-keys",
            "cli-a,cli-b",
            "1",
            "127.0.0.1:9100",
            "127.0.0.1:9101",
            "127.0.0.1:9102",
        ]),
        &[
            (ENV_CODEC, "json"),
            (ENV_CLIENT_HTTP, "127.0.0.1:9200"),
            (ENV_CLIENT_TCP, "127.0.0.1:9300"),
            (ENV_DEMO, "yes"),
            (ENV_DEMO_KEYS, "cli-a,cli-b"),
        ],
        &["1", "127.0.0.1:9100", "127.0.0.1:9101", "127.0.0.1:9102"],
    )
    .unwrap();

    assert_eq!(config.codec, WireCodec::Json);
    assert_eq!(config.id, 1);
    assert_eq!(
        config.addrs,
        vec![
            "127.0.0.1:9100".to_string(),
            "127.0.0.1:9101".to_string(),
            "127.0.0.1:9102".to_string()
        ]
    );
    assert_eq!(config.client_http.as_deref(), Some("127.0.0.1:9200"));
    assert_eq!(config.client_tcp.as_deref(), Some("127.0.0.1:9300"));
    assert!(config.demo.enabled);
    assert_eq!(config.demo.keys, vec!["cli-a".to_string(), "cli-b".to_string()]);
}

#[test]
fn env_is_used_when_cli_omits_values() {
    let env = env(&[
        (ENV_CODEC, "msgpack"),
        (ENV_NODE_ID, "0"),
        (ENV_PEER_ADDRS, "127.0.0.1:9100,127.0.0.1:9101"),
        (ENV_CLIENT_HTTP, "127.0.0.1:9200"),
        (ENV_DEMO, "1"),
        (ENV_DEMO_KEYS, "cap,mid"),
    ]);

    let config = configure(&env, &args(&["lmxd"]), &[], &[]).unwrap();

    assert_eq!(config.codec, WireCodec::Msgpack);
    assert_eq!(config.id, 0);
    assert_eq!(config.addrs.len(), 2);
    assert_eq!(config.client_http.as_deref(), Some("127.0.0.1:9200"));
    assert_eq!(config.client_tcp, None);
    assert!(config.demo.enabled);
    assert_eq!(config.demo.keys, vec!["cap".to_string(), "mid".to_string()]);
}

#[test]
fn named_node_flags_win_over_positionals() {
    let env = env(&[
        (ENV_NODE_ID, "0"),
        (ENV_PEER_ADDRS, "env0:9100,env1:9101,env2:9102"),
    ]);
    let config = configure(
        &env,
        &args(&[
            "lmxd",
            "--node-id",
            "2",
            "--peer-addrs",
            "cli0:9100,cli1:9101,cli2:9102",
            "1",
            "pos0:9100",
            "pos1:9101",
        ]),
        &[(ENV_NODE_ID, "2"), (ENV_PEER_ADDRS, "cli0:9100,cli1:9101,cli2:9102")],
        &["1", "pos0:9100", "pos1:9101"],
    )
    .unwrap();

    assert_eq!(config.id, 2);
    assert_eq!(
        config.addrs,
        vec!["cli0:9100".to_string(), "cli1:9101".to_string(), "cli2:9102".to_string()]
    );
}

#[test]
fn unknown_flag_before_positionals_errors_without_echoing_values() {
    let rejected = "postgres://runtime-secret@redacted.invalid/lmx";
    let flag = format!("--bogus={rejected}");
    let err = configure(
        &Settings::new(),
        &args(&["lmxd", &flag, "0", "127.0.0.1:9100"]),
        &[(ENV_UNKNOWN_OPTIONS, &serde_json::to_string(&[&flag]).unwrap())],
        &["0", "127.0.0.1:9100"],
    )
    .unwrap_err();

    assert!(matches!(err, BrokerRuntimeConfigError::UnknownCliOptions(_)));
    let display = err.to_string();
    assert_eq!(display, "unknown CLI option(s) (count: 1)");
    assert!(!display.contains(rejected));
    assert!(!display.contains("runtime-secret"));
}

#[test]
fn new_broker_tunables_parse_from_cli() {
    let config = configure(
        &Settings::new(),
        &args(&[
            "lmxd",
            "--codec=msgpack",
            "--no-stdin",
            "--no-log-info",
            "--connect-retry-ms=250",
            "--tick-ms=100",
            "--max-frame-bytes=2048",
            "--demo",
            "--demo-keys=cap,mid,zed",
            "--demo-hold-ms=10",
            "--demo-rest-ms=20",
            "0",
            "127.0.0.1:9100",
        ]),
        &[
            (ENV_CODEC, "msgpack"),
            (ENV_STDIN, "false"),
            (ENV_LOG_INFO, "false"),
            (ENV_CONNECT_RETRY_MS, "250"),
            (ENV_TICK_MS, "100"),
            (ENV_MAX_FRAME_BYTES, "2048"),
            (ENV_DEMO, "true"),
            (ENV_DEMO_KEYS, "cap,mid,zed"),
            (ENV_DEMO_HOLD_MS, "10"),
            (ENV_DEMO_REST_MS, "20"),
        ],
        &["0", "127.0.0.1:9100"],
    )
    .unwrap();

    assert_eq!(config.codec, WireCodec::Msgpack);
    assert!(!config.stdin);
    assert!(!config.log_info);
    assert_eq!(config.transport.codec, WireCodec::Msgpack);
    assert_eq!(config.transport.connect_retry, Duration::from_millis(250));
    assert_eq!(config.transport.tick, Duration::from_millis(100));
    assert_eq!(config.transport.max_line_frame, 2048);
    assert!(config.demo.enabled);
    assert_eq!(config.demo.hold, Duration::from_millis(10));
    assert_eq!(config.demo.rest, Duration::from_millis(20));
}

#[test]
fn empty_optional_cli_listener_disables_env_listener() {
    let config = configure(
        &env(&[(ENV_CLIENT_HTTP, "127.0.0.1:9200")]),
        &args(&["lmxd", "--client-http=", "0", "127.0.0.1:9100"]),
        &[(ENV_CLIENT_HTTP, "")],
        &["0", "127.0.0.1:9100"],
    )
    .unwrap();

    assert_eq!(config.client_http, None);
}

#[test]
fn empty_codec_cli_value_does_not_fall_back_to_env() {
    let err = configure(
        &env(&[(ENV_CODEC, "json")]),
        &args(&["lmxd", "--codec=", "0", "127.0.0.1:9100"]),
        &[(ENV_CODEC, "")],
        &["0", "127.0.0.1:9100"],
    )
    .unwrap_err();

    assert!(matches!(err, BrokerRuntimeConfigError::InvalidCodec(_)));
}

#[test]
fn empty_peer_addrs_cli_value_does_not_fall_back_to_env() {
    let err = configure(
        &env(&[(ENV_NODE_ID, "0"), (ENV_PEER_ADDRS, "127.0.0.1:9100")]),
        &args(&["lmxd", "--peer-addrs="]),
        &[(ENV_PEER_ADDRS, "")],
        &[],
    )
    .unwrap_err();

    assert!(matches!(err, BrokerRuntimeConfigError::InvalidPeerAddrs(_)));
}

#[test]
fn positional_addresses_are_validated() {
    let err = configure(
        &Settings::new(),
        &args(&["lmxd", "0", "--not-an-address"]),
        &[],
        &["0", "--not-an-address"],
    )
    .unwrap_err();

    assert!(matches!(err, BrokerRuntimeConfigError::InvalidSocketAddr { .. }));
}

#[test]
fn transport_bounds_are_enforced() {
    let err = configure(
        &env(&[(ENV_TICK_MS, "999999")]),
        &args(&["lmxd", "0", "127.0.0.1:9100"]),
        &[],
        &["0", "127.0.0.1:9100"],
    )
    .unwrap_err();

    assert!(matches!(
        err,
        BrokerRuntimeConfigError::NumberOutOfRange { env: ENV_TICK_MS, .. }
    ));
    assert_eq!(err.to_string(), "LMX_TICK_MS must be between 10 and 2000, got 999999");
}

#[test]
fn config_flag_is_stripped_before_flags2env_parse() {
    let line = args(&["lmxd", "--config", "/etc/lmx.toml", "0", "127.0.0.1:9100"]);
    assert_eq!(strip_config_selector(&line).unwrap(), args(&["0", "127.0.0.1:9100"]));
    let config = configure(&Settings::new(), &line, &[], &["0", "127.0.0.1:9100"]).unwrap();

    assert_eq!(config.id, 0);
    assert_eq!(config.addrs, vec!["127.0.0.1:9100".to_string()]);
}

#[test]
fn short_help_is_supported() {
    let err = configure(&Settings::new(), &args(&["lmxd", "-h"]), &[], &[]).unwrap_err();

    match err {
        BrokerRuntimeConfigError::HelpRequested(text) => assert_eq!(text, format!("{USAGE}\n")),
        other => panic!("{other:?}"),
    }
}

#[test]
fn help_shows_the_table_of_flags() {
    let mut parse = parsed(&[], &[]);
    parse.help_table = Ok("--codec  how to write\n".to_string());
    let err = BrokerRuntimeConfig::from_env_and_args(
        &Settings::new(),
        &args(&["lmxd", "0", "--help"]),
        parse,
    )
    .unwrap_err();
    match err {
        BrokerRuntimeConfigError::HelpRequested(text) => {
            assert_eq!(text, format!("{USAGE}\n\n--codec  how to write\n"))
        }
        other => panic!("{other:?}"),
    }
}

#[test]
fn explicit_contract_requires_absolute_readable_regular_file() {
    let reviewed = "/operator/reviewed.toml".to_string();
    let resolved = resolve_cli_flags_config_from(
        Some(Probe { absolute: true, found: Some(reviewed.clone()) }),
        &vec![Some("/elsewhere".to_string())],
    )
    .expect("explicit reviewed contract");
    assert_eq!(resolved, Some(reviewed));

    let relative = resolve_cli_flags_config_from(
        Some(Probe { absolute: false, found: Some("runtime-secret.toml".to_string()) }),
        &Vec::new(),
    )
    .expect_err("relative selector must fail closed");
    assert!(matches!(relative, BrokerRuntimeConfigError::ExplicitConfigMustBeAbsolute));
    assert!(!relative.to_string().contains("runtime-secret"));

    let missing_error = resolve_cli_flags_config_from(
        Some(Probe { absolute: true, found: None }),
        &vec![Some("/elsewhere".to_string())],
    )
    .expect_err("missing selector must fail closed");
    assert!(matches!(missing_error, BrokerRuntimeConfigError::ExplicitConfigUnreadable));
    assert!(!missing_error.to_string().contains("runtime-secret"));
}

#[test]
fn packaged_contract_beats_colocated_and_source_contracts() {
    let source = "/source/.cli-flags.toml".to_string();
    let candidates = contract_candidates(Some("/install/bin"), vec![source.clone()]);
    assert_eq!(
        candidates,
        vec![
            "/install/bin/../share/live-mutex-mills/.cli-flags.toml".to_string(),
            "/install/bin/.cli-flags.toml".to_string(),
            source,
        ]
    );
    let found: Vec<Option<String>> = candidates.into_iter().map(Some).collect();
    let resolved = resolve_cli_flags_config_from(None, &found).expect("trusted contract");
    assert_eq!(
        resolved.as_deref(),
        Some("/install/bin/../share/live-mutex-mills/.cli-flags.toml")
    );
}

#[test]
fn unrelated_working_directory_contract_is_never_a_candidate() {
    let source = "/source/.cli-flags.toml".to_string();
    let candidates = contract_candidates(Some("/install/bin"), vec![source.clone()]);
    assert!(candidates.iter().all(|c| !c.contains("attacker")));
    let resolved =
        resolve_cli_flags_config_from(None, &vec![None, None, Some(source.clone())]).unwrap();
    assert_eq!(resolved, Some(source));
    assert_eq!(resolve_cli_flags_config_from(None, &vec![None, None]).unwrap(), None);
}

#[test]
fn malformed_parser_metadata_is_redacted() {
    let rejected = "postgres://runtime-secret@redacted.invalid/lmx";
    let mut overrides = Settings::new();
    overrides.set(ENV_UNKNOWN_OPTIONS.to_string(), rejected.to_string());
    let err = BrokerRuntimeConfig::reconcile(&Settings::new(), overrides)
        .expect_err("malformed metadata must fail");
    assert!(matches!(err, BrokerRuntimeConfigError::InvalidJsonList { .. }));
    assert_eq!(
        err.to_string(),
        "LMX_UNKNOWN_OPTIONS parser metadata is not a JSON string array"
    );
    assert!(!err.to_string().contains(rejected));
    assert!(!err.to_string().contains("runtime-secret"));
}

#[test]
fn production_source_has_no_working_directory_contract_discovery() {
    let paths = contract_candidates(Some("/opt/lmx/bin"), vec!["/src/.cli-flags.toml".to_string()]);
    for forbidden in [["current_", "dir("].concat(), ["find_", "upward("].concat()] {
        assert!(
            paths.iter().all(|path| !path.contains(&forbidden)),
            "runtime config contains forbidden ambient discovery: {forbidden}"
        );
    }
    // Without a program's directory and sources there is no place to look.
    assert!(contract_candidates(None, Vec::new()).is_empty());
    assert!(paths.iter().all(|path| path.starts_with('/')));
    // These are all the places, none of them relative to where the program runs.
    assert_eq!(
        paths,
        args(&[
            "/opt/lmx/bin/../share/live-mutex-mills/.cli-flags.toml",
            "/opt/lmx/bin/.cli-flags.toml",
            "/src/.cli-flags.toml",
        ])
    );
}

#[test]
fn parser_text_becomes_settings() {
    let settings = overrides_from_json("{\"A\":\"1\",\"B\":\"x \\\"y\\\"\",\"A\":\"2\"}").unwrap();
    assert_eq!(settings.len(), 2);
    let a = settings.find("A").unwrap();
    assert_eq!(settings.value(a), "2");
    let b = settings.find("B").unwrap();
    assert_eq!(settings.value(b), "x \"y\"");
    assert!(overrides_from_json("{}").unwrap().find("A").is_none());
    for bad in ["", "[]", "null", "{\"A\":1}", "{\"A\":1,\"A\":\"2\"}", "{\"A\":\"1\",\"B\":null}", "{\"A\":\"1\"} x"] {
        assert!(matches!(
            overrides_from_json(bad),
            Err(BrokerRuntimeConfigError::CliParserJson { raw, .. }) if raw.is_empty()
        ));
    }
    let parse = CliParse {
        contract: Ok(()),
        help_table: Ok(String::new()),
        overrides: Ok("no object".to_string()),
    };
    assert!(matches!(
        BrokerRuntimeConfig::from_env_and_args(&Settings::new(), &args(&["lmxd"]), parse),
        Err(BrokerRuntimeConfigError::CliParserJson { .. })
    ));
}

#[test]
fn arguments_become_parser_text() {
    assert_eq!(argv_json(&Vec::new()), "[]");
    assert_eq!(
        argv_json(&args(&["--codec=json", "0", "a \"b\""])),
        "[\"--codec=json\",\"0\",\"a \\\"b\\\"\"]"
    );
}

#[test]
fn selectors_come_from_flags_and_the_environment() {
    let none = Settings::new();
    let named = env(&[(ENV_LMX_CLI_FLAGS_CONFIG, " /env.toml ")]);
    assert_eq!(
        explicit_contract(&named, &args(&["lmxd", "--cli-flags=/x.toml"])).unwrap().as_deref(),
        Some("/x.toml")
    );
    assert_eq!(
        explicit_contract(&named, &args(&["lmxd", "0"])).unwrap().as_deref(),
        Some("/env.toml")
    );
    assert_eq!(explicit_contract(&none, &args(&["lmxd", "--", "--config"])).unwrap(), None);
    assert!(matches!(
        cli_flags_config_from_args(&args(&["lmxd", "--config"])),
        Err(BrokerRuntimeConfigError::MissingCliValue("--config"))
    ));
    assert!(matches!(
        cli_flags_config_from_args(&args(&["lmxd", "--config="])),
        Err(BrokerRuntimeConfigError::InvalidConfigFlag(_))
    ));
    assert!(matches!(
        cli_flags_config_from_args(&args(&["lmxd", "--configure"])),
        Err(BrokerRuntimeConfigError::InvalidConfigFlag(_))
    ));
}

#[test]
fn every_setting_has_its_error() {
    let one = ["0", "127.0.0.1:9100"];
    let line = args(&["lmxd"]);
    let none = Settings::new();
    let fails = |flags: &[(&str, &str)], positionals: &[&str]| {
        configure(&none, &line, flags, positionals).unwrap_err()
    };
    assert!(matches!(fails(&[], &[]), BrokerRuntimeConfigError::MissingNodeId));
    assert!(matches!(fails(&[], &["0"]), BrokerRuntimeConfigError::MissingPeerAddrs));
    assert!(matches!(fails(&[], &["x", "a:1"]), BrokerRuntimeConfigError::InvalidNodeId(_)));
    assert!(matches!(
        fails(&[], &["2", "a:1", "b:2"]),
        BrokerRuntimeConfigError::NodeIdOutOfRange { id: 2, peers: 2 }
    ));
    assert_eq!(
        fails(&[], &["2", "a:1", "b:2"]).to_string(),
        "broker node id 2 is outside the 2-peer address list"
    );
    assert!(matches!(
        fails(&[], &["0", "a:1", "a:1"]),
        BrokerRuntimeConfigError::InvalidPeerAddrs(_)
    ));
    assert!(matches!(
        fails(&[(ENV_STDIN, "maybe")], &one),
        BrokerRuntimeConfigError::InvalidBool { env: ENV_STDIN, .. }
    ));
    assert!(matches!(
        fails(&[(ENV_TICK_MS, "soon")], &one),
        BrokerRuntimeConfigError::InvalidNumber { env: ENV_TICK_MS, .. }
    ));
    assert!(matches!(
        fails(&[(ENV_QUORUM_POLICY, "all")], &one),
        BrokerRuntimeConfigError::InvalidQuorumPolicy(_)
    ));
    assert!(matches!(
        fails(&[(ENV_DEMO, "1"), (ENV_DEMO_KEYS, "a,b,c,d")], &one),
        BrokerRuntimeConfigError::InvalidDemoKeys(_)
    ));
    assert!(matches!(
        fails(&[(ENV_DEMO, "1"), (ENV_DEMO_KEYS, " , ")], &one),
        BrokerRuntimeConfigError::InvalidDemoKeys(_)
    ));
    assert!(matches!(
        fails(&[(ENV_PARSE_ERRORS, "[\"bad\"]")], &one),
        BrokerRuntimeConfigError::CliParseErrors(_)
    ));
    assert!(matches!(
        fails(&[(ENV_CLIENT_TCP, "nowhere")], &one),
        BrokerRuntimeConfigError::InvalidSocketAddr { env: ENV_CLIENT_TCP, .. }
    ));
    let mut parse = parsed(&[], &one);
    parse.contract = Err(BrokerRuntimeConfigError::CliFlagsConfigInvalid {
        path: std::path::PathBuf::new(),
        report: String::new(),
    });
    assert!(matches!(
        BrokerRuntimeConfig::from_env_and_args(&none, &line, parse),
        Err(BrokerRuntimeConfigError::CliFlagsConfigInvalid { path, report })
            if path.as_os_str().is_empty() && report.is_empty()
    ));
}

#[test]
fn errors_keep_what_they_were_made_of_and_do_not_tell() {
    let secret = "/run/runtime-secret";
    let io = || std::io::Error::new(std::io::ErrorKind::Other, secret);
    let path = std::path::PathBuf::from(secret);
    let errors = [
        (
            BrokerRuntimeConfigError::CliFlagsConfigInvalid {
                path: path.clone(),
                report: secret.to_string(),
            },
            "reviewed broker CLI contract failed flags2env audit",
        ),
        (
            BrokerRuntimeConfigError::CliParserCString(NulError {
                position: 4,
                bytes: secret.as_bytes().to_vec(),
            }),
            "broker CLI parser input is invalid",
        ),
        (
            BrokerRuntimeConfigError::EmbeddedCliFlagsWrite { path, source: io() },
            "could not materialize the embedded broker CLI contract",
        ),
        (
            BrokerRuntimeConfigError::CurrentDir(io()),
            "could not inspect a trusted broker CLI contract",
        ),
    ];
    for (error, message) in errors {
        assert_eq!(error.to_string(), message);
    }
    match overrides_from_json("{\"A\":") {
        Err(BrokerRuntimeConfigError::CliParserJson { raw, source }) => {
            assert!(raw.is_empty());
            assert!(source.is_eof());
        }
        _ => panic!("expected what the parser says"),
    }
}

#[test]
fn defaults_come_last() {
    let config =
        configure(&Settings::new(), &args(&["lmxd"]), &[], &["0", "127.0.0.1:9100"]).unwrap();
    assert_eq!(config.codec, WireCodec::Text);
    assert!(config.stdin && config.log_info);
    assert_eq!(config.transport.connect_retry, Duration::from_millis(150));
    assert_eq!(config.transport.tick, Duration::from_millis(500));
    assert_eq!(config.transport.max_line_frame, 1024 * 1024);
    assert_eq!(config.transport.quorum_policy, QuorumPolicy::Majority);
    assert_eq!(config.demo, BrokerDemoConfig::default());
    assert_eq!(config.demo.keys, args(&["cap", "mid", "zed"]));
    assert_eq!(config.demo.hold, Duration::from_millis(800));
    assert_eq!(config.demo.rest, Duration::from_millis(400));
}

#[test]
fn peer_addresses_are_read_as_json_or_between_commas() {
    let config = configure(
        &env(&[(ENV_NODE_ID, "1"), (ENV_PEER_ADDRS, " [\" a:1 \", \"\", \"b:2\"] ")]),
        &args(&["lmxd"]),
        &[(ENV_QUORUM_POLICY, " Maekawa ")],
        &[],
    )
    .unwrap();
    assert_eq!(config.addrs, args(&["a:1", "b:2"]));
    assert_eq!(config.transport.quorum_policy, QuorumPolicy::Grid);
    assert_eq!(parse_csv_list(" a , ,b,"), args(&["a", "b"]));
}

#[test]
fn addresses_and_truth_values_are_told() {
    assert!(is_socketish("host:80"));
    assert!(is_socketish("[::1]:65535"));
    for bad in ["", "-x:1", ":80", "host", "host:", "host:65536", "ho st:1", "host:x"] {
        assert!(!is_socketish(bad), "{bad}");
    }
    for yes in ["1", "true", "T", "YES", " on "] {
        assert_eq!(parse_bool(yes), Some(true));
    }
    for no in ["", "0", "False", "f", "no", "off"] {
        assert_eq!(parse_bool(no), Some(false));
    }
    assert_eq!(parse_bool("2"), None);
}
