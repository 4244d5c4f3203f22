use kv_core::client::{Client, Config, Transport, endpoint_url, parse_database, request_head, response_body};

#[test]
fn config_defaults_to_the_socket() {
    let c = Config::default();
    assert_eq!(c.socket_path.as_deref(), Some("/var/run/reynard/kv.sock"));
    assert!(c.http_url.is_none());
    assert_eq!(c.database, 0);
}

#[test]
fn config_builders() {
    let c = Config::with_socket("/tmp/kv.sock").with_database(5);
    assert_eq!(c.socket_path.as_deref(), Some("/tmp/kv.sock"));
    assert!(c.http_url.is_none());
    assert_eq!(c.database, 5);
    let h = Config::with_http("http://localhost:8004".to_string());
    assert!(h.socket_path.is_none());
    assert_eq!(h.http_url.as_deref(), Some("http://localhost:8004"));
    assert_eq!(h.database, 0);
}

#[test]
fn config_from_environment_values() {
    let c = Config::from_env(Some(String::new()), Some("http://h".to_string()), Some("12".to_string()));
    assert_eq!(c.socket_path.as_deref(), Some("/var/run/reynard/kv.sock"));
    assert_eq!(c.http_url.as_deref(), Some("http://h"));
    assert_eq!(c.database, 12);
    let d = Config::from_env(Some("/s".to_string()), Some(String::new()), Some("300".to_string()));
    assert_eq!(d.socket_path.as_deref(), Some("/s"));
    assert!(d.http_url.is_none());
    assert_eq!(d.database, 0);
    let e = Config::from_env(None, None, None);
    assert_eq!(e.database, 0);
    assert!(e.http_url.is_none());
}

#[test]
fn database_numbers_parse_as_u8() {
    assert_eq!(parse_database("0"), Some(0));
    assert_eq!(parse_database("255"), Some(255));
    assert_eq!(parse_database("+7"), Some(7));
    assert_eq!(parse_database("007"), Some(7));
    assert_eq!(parse_database("256"), None);
    assert_eq!(parse_database("-1"), None);
    assert_eq!(parse_database("+"), None);
    assert_eq!(parse_database(""), None);
    assert_eq!(parse_database(" 1"), None);
    assert_eq!(parse_database("1000000000000"), None);
    for n in 0u16..=300 {
        assert_eq!(parse_database(&n.to_string()), n.to_string().parse::<u8>().ok());
    }
}

#[test]
fn clients_pick_their_transport() {
    match Client::new().transport() {
        Ok(Transport::Unix(p)) => assert_eq!(p, "/var/run/reynard/kv.sock"),
        _ => panic!("expected the socket"),
    }
    match Client::with_config(Config::with_http("http://x".to_string())).transport() {
        Ok(Transport::Http(u)) => assert_eq!(u, "http://x"),
        _ => panic!("expected HTTP"),
    }
    let none = Config { socket_path: None, http_url: None, database: 0 };
    match Client::with_config(none).transport() {
        Err(msg) => assert_eq!(msg, "No connection method configured"),
        _ => panic!("expected an error"),
    }
    let c = Client::from_env(None, None, Some("3".to_string()));
    assert_eq!(c.config().database, 3);
    assert_eq!(Client::default().config().database, 0);
}

#[test]
fn get_paths_are_url_encoded() {
    let c = Client::with_config(Config::with_socket("/s").with_database(2));
    assert_eq!(c.get_path("user:1"), "/get/2/user%3A1");
    assert_eq!(c.get_path("a b/é~._-"), "/get/2/a%20b%2F%C3%A9~._-");
}

#[test]
fn endpoints_drop_trailing_slashes() {
    assert_eq!(endpoint_url("http://h:1//", "/set"), "http://h:1/set");
    assert_eq!(endpoint_url("http://h:1", "/health"), "http://h:1/health");
}

#[test]
fn request_heads() {
    assert_eq!(
        request_head("GET", "/health", None),
        "GET /health HTTP/1.1\r\nHost: localhost\r\nContent-Type: application/json\r\n\r\n"
    );
    assert_eq!(
        request_head("POST", "/set", Some(42)),
        "POST /set HTTP/1.1\r\nHost: localhost\r\nContent-Type: application/json\r\nContent-Length: 42\r\n\r\n"
    );
}

#[test]
fn response_bodies() {
    assert_eq!(response_body(b"HTTP/1.1 200 OK\r\nA: b\r\n\r\n{\"x\":1}"), Some(b"{\"x\":1}".to_vec()));
    assert_eq!(response_body(b"no head"), Some(b"no head".to_vec()));
    assert_eq!(response_body(b"H\r\n\r\n"), Some(Vec::new()));
    // an invalid byte before the empty line shifts the position by the
    // replacement character's extra two bytes
    assert_eq!(response_body(b"\xff\r\n\r\nabcdef"), Some(b"cdef".to_vec()));
    assert_eq!(response_body(b"\xff\xff\r\n\r\n"), None);
    // invalid bytes after a valid head come back as they are
    assert_eq!(response_body(b"H: x\r\n\r\n\xff\xfe"), Some(b"\xff\xfe".to_vec()));
}
