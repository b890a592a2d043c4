use reach::command::{ChannelEnd, ChannelMessage, CommandOutput};

#[test]
fn output_is_collected_until_eof_and_exit() {
    let mut c = CommandOutput::new();
    assert_eq!(c.exit_code, -1);
    assert!(!c.on_message(ChannelMessage::Stdout(b"hel".to_vec())));
    assert!(!c.on_message(ChannelMessage::Stdout(b"lo".to_vec())));
    assert!(!c.on_message(ChannelMessage::Stderr(b"warn".to_vec())));
    assert!(!c.on_message(ChannelMessage::Other));
    assert!(!c.on_message(ChannelMessage::ExitStatus(3)));
    assert!(c.on_message(ChannelMessage::Eof));
    assert_eq!(c.stdout, "hello");
    assert_eq!(c.stderr, "warn");
    assert_eq!(c.exit_code, 3);
}

#[test]
fn eof_first_then_exit_ends_too() {
    let mut c = CommandOutput::new();
    assert!(!c.on_message(ChannelMessage::Eof));
    assert!(c.on_message(ChannelMessage::ExitStatus(0)));
    assert_eq!(c.exit_code, 0);
}

#[test]
fn closed_channel_ends_without_status() {
    let mut c = CommandOutput::new();
    assert!(c.on_message(ChannelMessage::Closed));
    assert_eq!(c.exit_code, -1);
}

#[test]
fn channel_end_needs_eof_and_exit() {
    let mut e = ChannelEnd::new();
    assert!(!e.on_message(&ChannelMessage::Stdout(b"x".to_vec())));
    assert!(!e.on_message(&ChannelMessage::ExitStatus(0)));
    assert!(e.on_message(&ChannelMessage::Eof));
    let mut f = ChannelEnd::new();
    assert!(f.on_message(&ChannelMessage::Closed));
}
