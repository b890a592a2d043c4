use reach::runs::{RunRegistry, SendOutcome};

#[test]
fn send_starts_then_queues_one() {
    let mut r = RunRegistry::new();
    assert!(r.send("t1", "hello".into()) == SendOutcome::Started);
    r.register("t1", 1);
    assert!(r.send("t1", "next".into()) == SendOutcome::Queued);
    assert!(r.send("t1", "again".into()) == SendOutcome::QueuedFull);
    assert!(r.send("t2", "other".into()) == SendOutcome::Started);
    assert_eq!(r.take_queued("t1").as_deref(), Some("next"));
    assert!(r.take_queued("t1").is_none());
}

#[test]
fn finish_waits_for_queue() {
    let mut r = RunRegistry::new();
    r.register("t1", 7);
    assert!(r.send("t1", "q".into()) == SendOutcome::Queued);
    assert!(!r.try_finish("t1", 7));
    assert_eq!(r.take_queued("t1").as_deref(), Some("q"));
    assert!(r.try_finish("t1", 7));
    assert!(r.send("t1", "fresh".into()) == SendOutcome::Started);
}

#[test]
fn dying_run_keeps_successor_slot() {
    let mut r = RunRegistry::new();
    r.register("t1", 1);
    r.register("t1", 2);
    r.end_run("t1", 1, true);
    assert!(r.send("t1", "x".into()) == SendOutcome::Queued);
    r.end_run("t1", 2, true);
    assert!(!r.dequeue("t1"));
    assert!(r.send("t1", "y".into()) == SendOutcome::Started);
}

#[test]
fn requeue_after_failed_supersede() {
    let mut r = RunRegistry::new();
    r.register("t", 3);
    assert!(r.send("t", "m".into()) == SendOutcome::Queued);
    assert!(r.dequeue("t"));
    r.requeue("t", "m".into());
    assert_eq!(r.take_queued("t").as_deref(), Some("m"));
}
