use minihttp::connection::{
    ensure_ascii_host, get_redirect, Config, Connection, Connector, Method, NextHop, Request,
    ScriptedConnector, Url,
};
use minihttp::response::Response;
use minihttp::Error;

fn request_to(host: &str, resource: &str, method: Method) -> Request {
    Request {
        url: Url {
            https: false,
            host: host.to_string(),
            port: 80,
            resource: resource.to_string(),
        },
        config: Config {
            method,
            max_headers_size: None,
            max_status_line_len: None,
            max_redirects: 8,
        },
        headers: Vec::new(),
        body: Vec::new(),
    }
}

#[test]
fn redirect_301_resolves_against_original_host() {
    let script = vec![
        b"HTTP/1.1 301 Moved Permanently\r\nLocation: /new\r\nContent-Length: 0\r\n\r\n".to_vec(),
        b"HTTP/1.1 200 OK\r\nContent-Length: 2\r\n\r\nok".to_vec(),
    ];
    let mut connector = ScriptedConnector::new(script);
    let conn = Connection::new(request_to("example.com", "/old", Method::Get));
    let lazy = conn.send(&mut connector).unwrap();
    assert_eq!(lazy.status_code, 200);
    assert_eq!(lazy.url, "http://example.com/new");
    let resp = Response::create(lazy, false).unwrap();
    assert_eq!(resp.as_bytes(), b"ok");
    assert_eq!(resp.url, "http://example.com/new");
}

#[test]
fn redirect_to_absolute_url_changes_host_and_port() {
    let script = vec![
        b"HTTP/1.1 302 Found\r\nLocation: http://other.example:8080/p?q=1\r\nContent-Length: 0\r\n\r\n"
            .to_vec(),
        b"HTTP/1.1 200 OK\r\nContent-Length: 0\r\n\r\n".to_vec(),
    ];
    let mut connector = ScriptedConnector::new(script);
    let conn = Connection::new(request_to("example.com", "/", Method::Get));
    let lazy = conn.send(&mut connector).unwrap();
    assert_eq!(lazy.url, "http://other.example:8080/p?q=1");
}

#[test]
fn redirect_303_downgrades_post_to_get() {
    let conn = Connection::new(request_to("example.com", "/submit", Method::Post));
    let location = String::from("/done");
    match get_redirect(conn, 303, Some(&location)) {
        NextHop::Redirect(Ok(next)) => {
            assert!(matches!(next.request.config.method, Method::Get));
            assert_eq!(next.request.url.resource, "/done");
        }
        _ => panic!("expected a redirect"),
    }
}

#[test]
fn redirect_303_keeps_get() {
    let conn = Connection::new(request_to("example.com", "/x", Method::Get));
    let location = String::from("/y");
    match get_redirect(conn, 303, Some(&location)) {
        NextHop::Redirect(Ok(next)) => {
            assert!(matches!(next.request.config.method, Method::Get));
        }
        _ => panic!("expected a redirect"),
    }
}

#[test]
fn redirect_307_keeps_post() {
    let conn = Connection::new(request_to("example.com", "/x", Method::Post));
    let location = String::from("/y");
    match get_redirect(conn, 307, Some(&location)) {
        NextHop::Redirect(Ok(next)) => {
            assert!(matches!(next.request.config.method, Method::Post));
        }
        _ => panic!("expected a redirect"),
    }
}

#[test]
fn redirect_303_post_to_get_end_to_end() {
    let script = vec![
        b"HTTP/1.1 303 See Other\r\nLocation: /done\r\nContent-Length: 0\r\n\r\n".to_vec(),
        b"HTTP/1.1 200 OK\r\nContent-Length: 0\r\n\r\n".to_vec(),
    ];
    let mut connector = ScriptedConnector::new(script);
    let conn = Connection::new(request_to("example.com", "/submit", Method::Post));
    let lazy = conn.send(&mut connector).unwrap();
    assert_eq!(lazy.status_code, 200);
    assert_eq!(lazy.url, "http://example.com/done");
}

#[test]
fn missing_location_fails_without_another_hop() {
    let script = vec![
        b"HTTP/1.1 301 Moved Permanently\r\nContent-Length: 0\r\n\r\n".to_vec(),
        b"HTTP/1.1 200 OK\r\nContent-Length: 0\r\n\r\n".to_vec(),
    ];
    let mut connector = ScriptedConnector::new(script);
    let conn = Connection::new(request_to("example.com", "/", Method::Get));
    let err = match conn.send(&mut connector) {
        Err(e) => e,
        Ok(_) => panic!("expected an error"),
    };
    assert_eq!(err, Error::RedirectLocationMissing);
    assert_eq!(connector.opened, 1);
}

#[test]
fn missing_location_decision() {
    let conn = Connection::new(request_to("example.com", "/", Method::Get));
    match get_redirect(conn, 302, None) {
        NextHop::Redirect(Err(e)) => assert_eq!(e, Error::RedirectLocationMissing),
        _ => panic!("expected the missing-location error"),
    }
}

#[test]
fn non_redirect_status_is_terminal() {
    let conn = Connection::new(request_to("example.com", "/", Method::Get));
    match get_redirect(conn, 200, None) {
        NextHop::Destination(c) => assert_eq!(c.request.url.host, "example.com"),
        _ => panic!("expected the terminal hop"),
    }
}

#[test]
fn unending_redirect_chain_is_abandoned() {
    let mut script = Vec::new();
    for _ in 0..10 {
        script.push(b"HTTP/1.1 301 Moved\r\nLocation: /again\r\nContent-Length: 0\r\n\r\n".to_vec());
    }
    let mut connector = ScriptedConnector::new(script);
    let conn = Connection::new(request_to("example.com", "/", Method::Get));
    let err = match conn.send(&mut connector) {
        Err(e) => e,
        Ok(_) => panic!("expected an error"),
    };
    assert_eq!(err, Error::TooManyRedirects);
}

#[test]
fn url_resolution_relative_path() {
    let mut url = Url {
        https: true,
        host: "host.example".to_string(),
        port: 443,
        resource: "/a/b".to_string(),
    };
    url.resolve("c/d");
    assert_eq!(url.resource, "/c/d");
    assert_eq!(url.to_string(), "https://host.example/c/d");
}

#[test]
fn url_to_string_includes_explicit_port() {
    let url = Url {
        https: false,
        host: "host.example".to_string(),
        port: 8080,
        resource: "/r".to_string(),
    };
    assert_eq!(url.to_string(), "http://host.example:8080/r");
}

#[test]
fn ascii_host_is_kept() {
    assert_eq!(ensure_ascii_host("example.com".to_string()).unwrap(), "example.com");
}

#[test]
fn non_ascii_host_is_punycoded() {
    let encoded = ensure_ascii_host("b\u{fc}cher.example".to_string()).unwrap();
    assert_eq!(encoded, "xn--bcher-kva.example");
}

#[test]
fn scripted_connector_serves_in_order() {
    let script = vec![b"one".to_vec(), b"two".to_vec()];
    let mut connector = ScriptedConnector::new(script);
    let url = String::from("http://example.com/");
    let first = connector.connect_http(&url, true).unwrap();
    assert_eq!(first.data, b"one".to_vec());
    let second = connector.connect_http(&url, true).unwrap();
    assert_eq!(second.data, b"two".to_vec());
    assert!(connector.connect_http(&url, true).is_err());
}

#[test]
fn oversized_non_ascii_label_is_refused() {
    let long_label: String = std::iter::repeat('\u{fc}').take(64).collect();
    let host = format!("{}.example", long_label);
    let err = match ensure_ascii_host(host) {
        Err(e) => e,
        Ok(_) => panic!("expected an error"),
    };
    assert_eq!(err, Error::PunycodeConversionFailed);
}

#[test]
fn longest_allowed_non_ascii_label_encodes() {
    let label: String = std::iter::repeat('\u{fc}').take(63).collect();
    let encoded = ensure_ascii_host(label).unwrap();
    assert!(encoded.starts_with("xn--"));
    assert!(encoded.is_ascii());
}
