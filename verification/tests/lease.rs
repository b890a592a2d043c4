use reach::lease::{LeaseAction, LeaseSearch};

fn id(a: &LeaseAction) -> String {
    match a {
        LeaseAction::TakeLease(s)
        | LeaseAction::FetchHandle(s)
        | LeaseAction::ReleaseAndFind(s)
        | LeaseAction::ReleaseAndFail(s)
        | LeaseAction::Acquired(s) => s.clone(),
        _ => panic!("expected a connection id"),
    }
}

#[test]
fn hinted_connection_is_leased() {
    let (mut s, a) = LeaseSearch::start(Some("c1".to_string()));
    assert!(matches!(a, LeaseAction::Find { preferred: Some(ref p) } if p == "c1"));
    let a = s.on_found(Some("c1".to_string()));
    assert_eq!(id(&a), "c1");
    assert!(matches!(s.on_lease(true), LeaseAction::FetchHandle(_)));
    let a = s.on_handle(true);
    assert!(matches!(a, LeaseAction::Acquired(_)));
    assert_eq!(id(&a), "c1");
}

#[test]
fn no_connection_is_not_connected() {
    let (mut s, _) = LeaseSearch::start(None);
    assert!(matches!(s.on_found(None), LeaseAction::NotConnected));
}

#[test]
fn vanished_candidate_is_excluded_once() {
    let (mut s, _) = LeaseSearch::start(None);
    let _ = s.on_found(Some("c1".to_string()));
    assert!(matches!(s.on_lease(false), LeaseAction::Find { preferred: None }));
    // The same connection is found again: it is excluded.
    assert!(matches!(s.on_found(Some("c1".to_string())), LeaseAction::NotConnected));
    // Another one is leased; when it vanishes too the search gives up.
    let _ = s.on_found(Some("c2".to_string()));
    assert!(matches!(s.on_lease(false), LeaseAction::NotConnected));
}

#[test]
fn missing_handle_releases_and_retries_once() {
    let (mut s, _) = LeaseSearch::start(None);
    let _ = s.on_found(Some("c1".to_string()));
    let _ = s.on_lease(true);
    let a = s.on_handle(false);
    assert!(matches!(a, LeaseAction::ReleaseAndFind(_)));
    assert_eq!(id(&a), "c1");
    let _ = s.on_found(Some("c2".to_string()));
    let _ = s.on_lease(true);
    let a = s.on_handle(false);
    assert!(matches!(a, LeaseAction::ReleaseAndFail(_)));
    assert_eq!(id(&a), "c2");
    assert_eq!(s.current().cloned(), Some("c2".to_string()));
}
