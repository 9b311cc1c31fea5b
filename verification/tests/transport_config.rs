use live_mutex_mills::transport::{
    validate_config, validate_settings, ConfigError, Duration, TransportSettings,
};

fn run_with(addrs: Vec<&str>, id: u32) -> ConfigError {
    let addrs: Vec<String> = addrs.into_iter().map(String::from).collect();
    validate_config(id, &addrs).expect_err("invalid config should be rejected before the node starts")
}

#[test]
fn rejects_empty_address_list() {
    assert_eq!(run_with(vec![], 0), ConfigError::NoAddresses);
}

#[test]
fn rejects_out_of_range_node_id() {
    assert_eq!(run_with(vec!["127.0.0.1:0"], 1), ConfigError::IdOutsideAddresses);
}

#[test]
fn rejects_empty_addresses() {
    assert_eq!(run_with(vec![""], 0), ConfigError::EmptyAddress);
    assert_eq!(run_with(vec![" \t"], 0), ConfigError::EmptyAddress);
}

#[test]
fn rejects_duplicate_addresses() {
    assert_eq!(
        run_with(vec!["127.0.0.1:9100", "127.0.0.1:9100"], 0),
        ConfigError::RepeatedAddress
    );
    assert_eq!(ConfigError::RepeatedAddress.message(), "addresses must be unique");
}

#[test]
fn rejects_invalid_transport_settings() {
    let settings = TransportSettings {
        tick: Duration::from_millis(0),
        ..TransportSettings::default()
    };
    assert_eq!(validate_config(0, &vec!["127.0.0.1:0".to_string()]), Ok(()));
    assert_eq!(
        validate_settings(&settings).expect_err("invalid settings should be rejected before bind"),
        ConfigError::EmptyInterval
    );
    let settings = TransportSettings { max_line_frame: 0, ..TransportSettings::default() };
    assert_eq!(validate_settings(&settings), Err(ConfigError::EmptyFrame));
    assert_eq!(validate_settings(&TransportSettings::default()), Ok(()));
}
