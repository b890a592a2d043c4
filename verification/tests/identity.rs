use reach::identity::{
    agent_scope, chain_fingerprint_json, compute_identity, hex_encode, normalize_host, AuthKind,
    ChainHop, ChainProxy, ProxyConfig,
};
use reach::ssh::{AuthParams, JumpHostParams};

fn proxy(password: Option<&str>) -> ProxyConfig {
    ProxyConfig {
        proxy_type: "socks5".into(),
        host: "127.0.0.1".into(),
        port: 9050,
        username: None,
        password: password.map(|s| s.to_string()),
    }
}

#[test]
fn direct_connection() {
    let id = compute_identity("root", "Example.COM ", 22, None, None);
    assert_eq!(id, "root@example.com:22");
}

#[test]
fn ipv6_bracketed() {
    let id = compute_identity("root", "::1", 22, None, None);
    assert_eq!(id, "root@[::1]:22");
}

#[test]
fn via_suffix_when_proxied() {
    let p = proxy(None);
    let id = compute_identity("root", "10.0.0.8", 22, None, Some(&p));
    assert!(id.starts_with("root@10.0.0.8:22#via="));
    assert_eq!(id.len(), "root@10.0.0.8:22#via=".len() + 8);
}

#[test]
fn via_suffix_stable_for_same_chain() {
    let a = compute_identity("root", "10.0.0.8", 22, None, Some(&proxy(Some("secret"))));
    let b = compute_identity("root", "10.0.0.8", 22, None, Some(&proxy(None)));
    assert_eq!(a, b);
}

fn hop(kind: AuthKind) -> ChainHop {
    ChainHop { host: "h".into(), port: 22, username: "u".into(), auth_kind: kind }
}

#[test]
fn auth_kind_labels_are_stable() {
    let json = chain_fingerprint_json(Some(&[hop(AuthKind::Key)]), None);
    assert!(json.contains(r#""auth_kind":"key""#));
    let json = chain_fingerprint_json(Some(&[hop(AuthKind::Password)]), None);
    assert!(json.contains(r#""auth_kind":"password""#));
    let json = chain_fingerprint_json(Some(&[hop(AuthKind::Agent)]), None);
    assert!(json.contains(r#""auth_kind":"agent""#));
}

#[test]
fn fingerprint_json_is_compact_and_escaped() {
    let hops = [
        ChainHop { host: "a\"b".into(), port: 2222, username: "x\\y\n".into(), auth_kind: AuthKind::Key },
        hop(AuthKind::Agent),
    ];
    let p = ProxyConfig { username: Some("bob".into()), ..proxy(None) };
    assert_eq!(
        chain_fingerprint_json(Some(&hops), Some(&p)),
        "{\"jump_chain\":[{\"host\":\"a\\\"b\",\"port\":2222,\"username\":\"x\\\\y\\n\",\"auth_kind\":\"key\"},\
{\"host\":\"h\",\"port\":22,\"username\":\"u\",\"auth_kind\":\"agent\"}],\
\"proxy\":{\"proxy_type\":\"socks5\",\"host\":\"127.0.0.1\",\"port\":9050,\"username\":\"bob\"}}"
    );
    assert_eq!(
        chain_fingerprint_json(None, None),
        "{\"jump_chain\":null,\"proxy\":null}"
    );
    let ctl = ChainHop { host: "\u{1}".into(), port: 1, username: "".into(), auth_kind: AuthKind::Key };
    assert!(chain_fingerprint_json(Some(&[ctl]), None).contains("\"host\":\"\\u0001\""));
}

#[test]
fn empty_jump_chain_without_proxy_has_no_hash() {
    let id = compute_identity(" admin ", "HOST", 2200, Some(&[]), None);
    assert_eq!(id, "admin@host:2200");
    let id = compute_identity("admin", "host", 2200, Some(&[hop(AuthKind::Key)]), None);
    assert!(id.starts_with("admin@host:2200#via="));
    assert_eq!(id.len(), "admin@host:2200#via=".len() + 8);
    assert!(id["admin@host:2200#via=".len()..].chars().all(|c| c.is_ascii_hexdigit()));
}

#[test]
fn different_chains_hash_differently() {
    let a = compute_identity("root", "h", 22, Some(&[hop(AuthKind::Key)]), None);
    let b = compute_identity("root", "h", 22, Some(&[hop(AuthKind::Password)]), None);
    assert_ne!(a, b);
}

#[test]
fn hex_encode_matches_two_digit_lowercase() {
    assert_eq!(hex_encode(&[0x00, 0x0f, 0xa0, 0xff]), "000fa0ff");
    assert_eq!(hex_encode(&[]), "");
}

#[test]
fn normalize_host_brackets_ipv6_once() {
    assert_eq!(normalize_host(" FE80::1 "), "[fe80::1]");
    assert_eq!(normalize_host("[::1]"), "[::1]");
    assert_eq!(normalize_host("fe80::1]]"), "[fe80::1]");
    assert_eq!(normalize_host("Host.Example"), "host.example");
}

#[test]
fn agent_scope_prefixes() {
    assert_eq!(agent_scope(Some("abc"), "root@h:22".into()), "session:abc");
    assert_eq!(agent_scope(None, "root@h:22".into()), "link:root@h:22");
}

#[test]
fn chain_hop_from_jump_keeps_only_identifying_fields() {
    let p = JumpHostParams {
        host: " Bastion.Example ".into(),
        port: 2222,
        username: " ops ".into(),
        auth: AuthParams::from_password("hunter2".into()),
    };
    let h = ChainHop::from_jump(&p);
    assert_eq!(h.host, "bastion.example");
    assert_eq!(h.port, 2222);
    assert_eq!(h.username, "ops");
    assert!(h.auth_kind == AuthKind::Password);
    assert!(AuthKind::of_params(&AuthParams::from_key("k".into(), None)) == AuthKind::Key);
    assert!(AuthKind::of_params(&AuthParams::from_agent()) == AuthKind::Agent);
    let cp = ChainProxy::from_config(&ProxyConfig { host: " PROXY ".into(), ..proxy(Some("pw")) });
    assert_eq!(cp.host, "proxy");
    assert_eq!(cp.username, None);
}
