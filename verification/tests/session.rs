use reach::session::{SessionAction, SessionEvent, TerminalRelay};

fn emitted(a: SessionAction) -> Vec<String> {
    match a {
        SessionAction::Emit(v) => v,
        _ => panic!("expected live output to emit"),
    }
}

fn flushed(a: SessionAction) -> Vec<String> {
    match a {
        SessionAction::Flush(v) => v,
        _ => panic!("expected held output to flush"),
    }
}

#[test]
fn output_before_ready_is_held_then_flushed_in_order() {
    let mut r = TerminalRelay::new();
    assert!(matches!(r.step(SessionEvent::Output(b"Welcome\r\n".to_vec())), SessionAction::Hold));
    assert!(matches!(r.step(SessionEvent::Output(b"$ ".to_vec())), SessionAction::Hold));
    assert_eq!(flushed(r.step(SessionEvent::Ready)), vec!["Welcome\r\n".to_string(), "$ ".to_string()]);
    assert_eq!(emitted(r.step(SessionEvent::Output(b"ls\r\n".to_vec()))), vec!["ls\r\n".to_string()]);
}

#[test]
fn ready_with_nothing_held_emits_nothing() {
    let mut r = TerminalRelay::new();
    assert!(flushed(r.step(SessionEvent::Ready)).is_empty());
}

#[test]
fn invalid_utf8_output_is_replaced() {
    let mut r = TerminalRelay::new();
    let _ = r.step(SessionEvent::Ready);
    assert_eq!(emitted(r.step(SessionEvent::Output(vec![b'a', 0xff]))), vec!["a\u{fffd}".to_string()]);
}

#[test]
fn commands_and_channel_ends() {
    let mut r = TerminalRelay::new();
    match r.step(SessionEvent::Input(b"x".to_vec())) {
        SessionAction::Write(w) => assert_eq!(w, b"x".to_vec()),
        _ => panic!("expected a write"),
    }
    assert!(matches!(
        r.step(SessionEvent::Resize { cols: 80, rows: 24 }),
        SessionAction::Resize { cols: 80, rows: 24 }
    ));
    assert!(matches!(r.step(SessionEvent::Exited(2)), SessionAction::ReportExit(2)));
    assert!(matches!(r.step(SessionEvent::Eof), SessionAction::CleanUp));
    assert!(matches!(r.step(SessionEvent::ChannelClosed), SessionAction::CleanUp));
    assert!(matches!(r.step(SessionEvent::Close), SessionAction::CloseChannel));
}
