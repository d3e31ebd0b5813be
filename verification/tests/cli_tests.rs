use mukhidb::cli::{parse_host_port, parse_port, parse_port_number, DEFAULT_PORT};

fn args(v: &[&str]) -> Vec<String> {
    v.iter().map(|s| s.to_string()).collect()
}

#[test]
fn port_option() {
    assert_eq!(parse_port(&args(&[])), DEFAULT_PORT);
    assert_eq!(parse_port(&args(&["--port", "8000"])), 8000);
    assert_eq!(parse_port(&args(&["--port", "x", "--port", "9"])), 9);
    assert_eq!(parse_port(&args(&["--port"])), 4567);
    assert_eq!(parse_port(&args(&["--port", "70000"])), 4567);
}

#[test]
fn host_and_port_options() {
    assert_eq!(parse_host_port(&args(&[])), ("127.0.0.1".to_string(), 4567));
    assert_eq!(
        parse_host_port(&args(&["--host", "example", "--port", "81"])),
        ("example".to_string(), 81)
    );
    assert_eq!(parse_host_port(&args(&["--port", "bad", "--host"])), ("127.0.0.1".to_string(), 4567));
}

#[test]
fn port_numbers() {
    assert_eq!(parse_port_number("65535"), Some(65535));
    assert_eq!(parse_port_number("+80"), Some(80));
    assert_eq!(parse_port_number("65536"), None);
    assert_eq!(parse_port_number("-1"), None);
    assert_eq!(parse_port_number(""), None);
    assert_eq!(parse_port_number("+"), None);
    assert_eq!(parse_port_number("0012"), Some(12));
}
