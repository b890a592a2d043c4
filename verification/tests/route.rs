use reach::identity::ProxyConfig;
use reach::route::{
    connect_failure, http_connect_outcome, http_connect_request, jump_steps, proxy_route,
    tunnel_failure, HopStep, ProxyKind,
};
use reach::ssh::SshError;

fn proxy(kind: &str, user: Option<&str>, pass: Option<&str>) -> ProxyConfig {
    ProxyConfig {
        proxy_type: kind.to_string(),
        host: "proxy.lan".to_string(),
        port: 1080,
        username: user.map(|s| s.to_string()),
        password: pass.map(|s| s.to_string()),
    }
}

fn failure(e: SshError) -> String {
    match e {
        SshError::ConnectionFailed(m) => m,
        _ => panic!("expected a connection failure"),
    }
}

#[test]
fn proxy_types_are_case_insensitive() {
    let r = proxy_route(&proxy("SOCKS5", Some("u"), Some("p"))).ok().unwrap();
    assert!(matches!(r.kind, ProxyKind::Socks5));
    assert_eq!(r.address, "proxy.lan:1080");
    assert_eq!(r.credentials, Some(("u".to_string(), "p".to_string())));
    let r = proxy_route(&proxy("socks4", Some("u"), None)).ok().unwrap();
    assert!(matches!(r.kind, ProxyKind::Socks4));
    assert_eq!(r.credentials, None);
    assert!(matches!(proxy_route(&proxy("Http", None, None)).ok().unwrap().kind, ProxyKind::Http));
}

#[test]
fn unknown_proxy_type_is_refused() {
    match proxy_route(&proxy("ftp", None, None)) {
        Err(e) => assert_eq!(failure(e), "Unsupported proxy type: ftp"),
        Ok(_) => panic!("expected a refusal"),
    }
}

#[test]
fn connect_request_with_and_without_credentials() {
    assert_eq!(
        http_connect_request("db.internal", 22, &None),
        "CONNECT db.internal:22 HTTP/1.1\r\nHost: db.internal:22\r\n\r\n"
    );
    assert_eq!(
        http_connect_request("h", 2222, &Some(("u".to_string(), "p".to_string()))),
        "CONNECT h:2222 HTTP/1.1\r\nHost: h:2222\r\nProxy-Authorization: Basic dTpw\r\n\r\n"
    );
}

#[test]
fn connect_answer_needs_200() {
    assert!(http_connect_outcome(b"HTTP/1.1 200 Connection established\r\n\r\n").is_ok());
    match http_connect_outcome(b"HTTP/1.1 407 Proxy Authentication Required\r\nX: y\r\n") {
        Err(e) => assert_eq!(failure(e), "HTTP proxy rejected: HTTP/1.1 407 Proxy Authentication Required"),
        Ok(_) => panic!("expected a rejection"),
    }
    match http_connect_outcome(b"") {
        Err(e) => assert_eq!(failure(e), "HTTP proxy rejected: "),
        Ok(_) => panic!("expected a rejection"),
    }
}

#[test]
fn jump_chain_steps_in_order() {
    let jumps = vec![("a".to_string(), 22), ("b".to_string(), 2200)];
    let steps = jump_steps(&jumps, "target", 22);
    assert_eq!(steps.len(), 3);
    assert!(matches!(&steps[0], HopStep::Direct { host, port: 22 } if host == "a"));
    assert!(matches!(&steps[1], HopStep::Jump { host, port: 2200 } if host == "b"));
    assert!(matches!(&steps[2], HopStep::Target { host, port: 22 } if host == "target"));
    assert_eq!(jump_steps(&vec![("only".to_string(), 22)], "t", 2).len(), 2);
}

#[test]
fn jump_failures_name_the_hop() {
    let jumps = vec![("a".to_string(), 22), ("b".to_string(), 22)];
    let steps = jump_steps(&jumps, "t", 2222);
    assert_eq!(failure(connect_failure(&steps[0], "refused")), "Jump host a connection failed: refused");
    assert_eq!(failure(connect_failure(&steps[1], "eof")), "SSH over tunnel to b failed: eof");
    assert_eq!(failure(connect_failure(&steps[2], "eof")), "SSH to target t:2222 via jump failed: eof");
    assert_eq!(failure(tunnel_failure(&steps[1], "denied")), "Failed to open tunnel to b: denied");
    assert_eq!(
        failure(tunnel_failure(&steps[2], "denied")),
        "Failed to open tunnel to target t:2222: denied"
    );
}
