use reach::backend::{
    limits_supported, packet_limits, BackendCache, BackendChoice, DEFAULT_PACKET_LEN,
};

#[test]
fn limits_extension_must_be_one() {
    assert!(limits_supported(Some("1")));
    assert!(!limits_supported(Some("2")));
    assert!(!limits_supported(None));
}

#[test]
fn request_sizes_only_shrink() {
    assert_eq!(DEFAULT_PACKET_LEN, 261120);
    let p = packet_limits(None);
    assert_eq!((p.read_len, p.write_len), (261120, 261120));
    let p = packet_limits(Some((Some(32768), None)));
    assert_eq!((p.read_len, p.write_len), (32768, 261120));
    let p = packet_limits(Some((Some(u64::MAX), Some(1 << 20))));
    assert_eq!((p.read_len, p.write_len), (261120, 261120));
}

#[test]
fn only_working_sessions_are_kept() {
    let mut cache: BackendCache<u32> = BackendCache::new();
    let id = "c1".to_string();
    assert!(matches!(cache.backend_for(&id), BackendChoice::Probe));
    cache.record_probe(id.clone(), None);
    assert!(matches!(cache.backend_for(&id), BackendChoice::Probe));
    cache.record_probe(id.clone(), Some(7));
    assert!(matches!(cache.backend_for(&id), BackendChoice::Sftp(&7)));
    assert_eq!(cache.invalidate(&id), Some(7));
    assert!(matches!(cache.backend_for(&id), BackendChoice::Probe));
    assert_eq!(cache.invalidate(&id), None);
}
