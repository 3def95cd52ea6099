use edge_scan::args::{split_prefixes, Args, ErrorKind, DEFAULT_COUNT, DEFAULT_MAX_VALID_IPS, DEFAULT_PORT};

fn args_with(skip_prefixes: Option<String>) -> Args {
    Args {
        count: DEFAULT_COUNT,
        skip_prefixes,
        file_path: None,
        log_level: "info".to_string(),
        domain: "example.com".to_string(),
        port: DEFAULT_PORT,
        max_valid_ips: DEFAULT_MAX_VALID_IPS,
    }
}

#[test]
fn test_default_values() {
    let args = Args::parse_from(&["testapp", "--domain", "example.com"]).unwrap();
    assert_eq!(args.count, DEFAULT_COUNT);
    assert_eq!(args.log_level, "info");
    assert!(args.skip_prefixes.is_none());
    assert!(args.file_path.is_none());
    assert_eq!(args.domain, "example.com");
    assert_eq!(args.port, 443);
    assert_eq!(args.max_valid_ips, DEFAULT_MAX_VALID_IPS)
}

#[test]
fn test_valid_input() {
    let args = Args::parse_from(&[
        "testapp",
        "--count",
        "10",
        "--skip-prefixes",
        "192.168,10.0",
        "-f",
        "/path/to/file",
        "--log-level",
        "debug",
        "--domain",
        "example.com",
        "--port",
        "443",
        "--max-valid-ips",
        "20",
    ])
    .unwrap();

    assert_eq!(args.count, 10);
    assert_eq!(args.skip_prefixes, Some("192.168,10.0".to_string()));
    assert_eq!(args.file_path, Some("/path/to/file".to_string()));
    assert_eq!(args.log_level, "debug");
    assert_eq!(args.domain, "example.com");
    assert_eq!(args.port, 443);
    assert_eq!(args.max_valid_ips, 20)
}

#[test]
fn test_invalid_count() {
    let result = Args::parse_from(&["testapp", "--count", "not_a_number"]);
    assert!(result.is_err());
    let err = result.err().unwrap();
    assert_eq!(err.kind(), ErrorKind::ValueValidation);
}

#[test]
fn test_invalid_port() {
    let result = Args::parse_from(&["testapp", "--port", "not_a_number"]);
    assert!(result.is_err());
    let err = result.err().unwrap();
    assert_eq!(err.kind(), ErrorKind::ValueValidation);
}

#[test]
fn port_out_of_range_is_refused() {
    let result = Args::parse_from(&["testapp", "--domain", "example.com", "--port", "65536"]);
    assert_eq!(result.err().unwrap().kind(), ErrorKind::ValueValidation);
    let args = Args::parse_from(&["testapp", "--domain", "example.com", "--port", "65535"]).unwrap();
    assert_eq!(args.port, 65535);
}

#[test]
fn short_options_are_read() {
    let args = Args::parse_from(&["testapp", "-c", "7", "--domain", "a.example", "-f", "out.txt"]).unwrap();
    assert_eq!(args.count, 7);
    assert_eq!(args.file_path, Some("out.txt".to_string()));
}

#[test]
fn missing_domain_is_refused() {
    let result = Args::parse_from(&["testapp", "--count", "3"]);
    assert_eq!(result.err().unwrap().kind(), ErrorKind::MissingRequiredArgument);
}

#[test]
fn unknown_option_is_refused() {
    let result = Args::parse_from(&["testapp", "--colour", "red", "--domain", "example.com"]);
    assert_eq!(result.err().unwrap().kind(), ErrorKind::UnknownArgument);
}

#[test]
fn option_without_value_is_refused() {
    let result = Args::parse_from(&["testapp", "--domain"]);
    assert_eq!(result.err().unwrap().kind(), ErrorKind::MissingValue);
}

#[test]
fn repeated_option_is_refused() {
    let result = Args::parse_from(&["testapp", "--domain", "a.example", "--domain", "b.example"]);
    assert_eq!(result.err().unwrap().kind(), ErrorKind::ArgumentConflict);
}

#[test]
fn prefixes_split_at_commas_without_empty_pieces() {
    assert_eq!(split_prefixes("192.168,,10.0,"), vec!["192.168".to_string(), "10.0".to_string()]);
    assert!(split_prefixes("").is_empty());
    assert_eq!(split_prefixes(",172"), vec!["172".to_string()]);
}

#[test]
fn skip_prefix_list_of_args() {
    let args = args_with(Some("104,172.64".to_string()));
    assert_eq!(args.skip_prefix_list(), vec!["104".to_string(), "172.64".to_string()]);
    assert!(args_with(None).skip_prefix_list().is_empty());
}

#[test]
fn defaults_are_those_of_the_command_line() {
    assert_eq!(DEFAULT_COUNT, 150);
    assert_eq!(DEFAULT_MAX_VALID_IPS, 5);
    assert_eq!(DEFAULT_PORT, 443);
}
