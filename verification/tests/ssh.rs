use reach::ssh::{decision_effect, host_key_id, tilde_path, HostKeyCheck, HostKeyDecision, KnownHosts, TildePath};
use reach::ssh::{next_auth_method, AuthMethod, AuthParams, KeyAuth};

#[test]
fn host_key_ids() {
    assert_eq!(host_key_id("example.com", 22), "example.com:22");
    assert_eq!(host_key_id("10.0.0.1", 2222), "10.0.0.1:2222");
}

#[test]
fn known_hosts_check_and_save() {
    let mut k = KnownHosts::new();
    match k.check("h:22", "SHA256:aaa") {
        HostKeyCheck::Prompt { is_new, old_fingerprint } => {
            assert!(is_new);
            assert!(old_fingerprint.is_none());
        }
        HostKeyCheck::Known => panic!("unknown host must prompt"),
    }
    k.insert("h:22", "SHA256:aaa");
    assert!(matches!(k.check("h:22", "SHA256:aaa"), HostKeyCheck::Known));
    match k.check("h:22", "SHA256:bbb") {
        HostKeyCheck::Prompt { is_new, old_fingerprint } => {
            assert!(!is_new);
            assert_eq!(old_fingerprint.as_deref(), Some("SHA256:aaa"));
        }
        HostKeyCheck::Known => panic!("changed key must prompt"),
    }
    k.insert("h:22", "SHA256:bbb");
    assert_eq!(k.get("h:22").as_deref(), Some("SHA256:bbb"));
    assert_eq!(k.get("other:22"), None);
}

#[test]
fn host_key_decisions() {
    assert_eq!(decision_effect(Some(HostKeyDecision::Accept)), (true, true));
    assert_eq!(decision_effect(Some(HostKeyDecision::AcceptOnce)), (true, false));
    assert_eq!(decision_effect(Some(HostKeyDecision::Reject)), (false, false));
    assert_eq!(decision_effect(None), (false, false));
}

#[test]
fn tilde_paths() {
    assert!(matches!(tilde_path(" ~ "), TildePath::Home));
    match tilde_path("~/.ssh/id_ed25519") {
        TildePath::UnderHome(r) => assert_eq!(r, ".ssh/id_ed25519"),
        _ => panic!("under home"),
    }
    match tilde_path("~\\keys\\a") {
        TildePath::UnderHome(r) => assert_eq!(r, "keys\\a"),
        _ => panic!("under home"),
    }
    match tilde_path("  /etc/ssh/key ") {
        TildePath::AsIs(p) => assert_eq!(p, "/etc/ssh/key"),
        _ => panic!("as is"),
    }
    match tilde_path("~user/key") {
        TildePath::AsIs(p) => assert_eq!(p, "~user/key"),
        _ => panic!("as is"),
    }
}

#[test]
fn auth_cascade_order() {
    let all = AuthParams {
        key: Some(KeyAuth { path: "~/.ssh/id".into(), passphrase: None }),
        password: Some("pw".into()),
        allow_agent: true,
    };
    assert!(next_auth_method(&all, None) == Some(AuthMethod::Key));
    assert!(next_auth_method(&all, Some(AuthMethod::Key)) == Some(AuthMethod::Agent));
    assert!(next_auth_method(&all, Some(AuthMethod::Agent)) == Some(AuthMethod::Password));
    assert!(next_auth_method(&all, Some(AuthMethod::Password)).is_none());
    let pw = AuthParams { key: None, password: Some("pw".into()), allow_agent: false };
    assert!(next_auth_method(&pw, None) == Some(AuthMethod::Password));
    let none = AuthParams { key: None, password: None, allow_agent: false };
    assert!(next_auth_method(&none, None).is_none());
}
