//! The relay between an interactive SSH shell channel and the terminal
//! view: what each channel message or view command leads to. Output that
//! arrives before the view is ready (the MOTD, system information) is held
//! and handed over in one burst when it is.

use vstd::prelude::*;
use crate::remote_fs::{lossy_utf8, utf8_lossy};
use crate::text::string_views;

verus! {

/// What reaches the relay: a channel message or a command from the view.
pub enum SessionEvent {
    /// Channel data, on stdout or stderr.
    Output(Vec<u8>),
    /// The remote shell exited with a status.
    Exited(u32),
    /// The channel sent EOF.
    Eof,
    /// The channel is gone.
    ChannelClosed,
    /// Keystrokes to send to the shell.
    Input(Vec<u8>),
    Resize { cols: u32, rows: u32 },
    /// The view listens now: held output can be sent.
    Ready,
    /// The view closes the session.
    Close,
}

/// What the relay asks its driver to do.
pub enum SessionAction {
    /// Send this live output to the view; if that fails, the session ends.
    Emit(Vec<String>),
    /// Send the held output to the view, in order; if a send fails, the
    /// rest is dropped and the session goes on.
    Flush(Vec<String>),
    /// Output was held for later.
    Hold,
    /// Write these bytes to the channel.
    Write(Vec<u8>),
    /// Change the window size.
    Resize { cols: u32, rows: u32 },
    /// Report the exit status to the view, clean the connection up, stop.
    ReportExit(u32),
    /// Clean the dead connection up and stop.
    CleanUp,
    /// Close the channel and stop.
    CloseChannel,
    /// Nothing to do.
    Ignore,
}

/// The events after which the relay stops.
pub open spec fn stops(e: SessionEvent) -> bool {
    match e {
        SessionEvent::Exited(_) | SessionEvent::Eof | SessionEvent::ChannelClosed
        | SessionEvent::Close => true,
        _ => false,
    }
}

/// One step of the relay over its view (held payloads, ready): what is
/// emitted, the held payloads after, and whether the view is ready after.
pub open spec fn relay_step(held: Seq<Seq<char>>, ready: bool, e: SessionEvent) -> (
    Seq<Seq<char>>,
    Seq<Seq<char>>,
    bool,
) {
    match e {
        SessionEvent::Output(b) => if ready {
            (seq![lossy_utf8(b@)], held, ready)
        } else {
            (Seq::empty(), held.push(lossy_utf8(b@)), ready)
        },
        SessionEvent::Ready => (held, Seq::empty(), true),
        _ => (Seq::empty(), held, ready),
    }
}

/// Runs the relay over events until one that stops it: everything emitted,
/// then the held payloads and readiness at the end.
pub open spec fn relay_run(held: Seq<Seq<char>>, ready: bool, events: Seq<SessionEvent>) -> (
    Seq<Seq<char>>,
    Seq<Seq<char>>,
    bool,
)
    decreases events.len(),
{
    if events.len() == 0 || stops(events[0]) {
        (Seq::empty(), held, ready)
    } else {
        let s = relay_step(held, ready, events[0]);
        let r = relay_run(s.1, s.2, events.drop_first());
        (s.0 + r.0, r.1, r.2)
    }
}

/// The output payloads among the events, up to one that stops the relay.
pub open spec fn received(events: Seq<SessionEvent>) -> Seq<Seq<char>>
    decreases events.len(),
{
    if events.len() == 0 || stops(events[0]) {
        Seq::empty()
    } else {
        match events[0] {
            SessionEvent::Output(b) => seq![lossy_utf8(b@)] + received(events.drop_first()),
            _ => received(events.drop_first()),
        }
    }
}

/// The relay's state: output held until the view is ready.
pub struct TerminalRelay {
    held: Vec<String>,
    ready: bool,
}

impl TerminalRelay {
    /// The payloads held so far, in arrival order.
    pub closed spec fn held(&self) -> Seq<Seq<char>> {
        string_views(self.held@)
    }

    /// Whether the view is ready.
    pub closed spec fn is_ready(&self) -> bool {
        self.ready
    }

    pub fn new() -> (r: TerminalRelay)
        ensures
            r.held() == Seq::<Seq<char>>::empty(),
            !r.is_ready(),
    {
        let r = TerminalRelay { held: Vec::new(), ready: false };
        assert(r.held() =~= Seq::<Seq<char>>::empty());
        r
    }

    /// What one event leads to.
    pub fn step(&mut self, e: SessionEvent) -> (a: SessionAction)
        ensures
            final(self).held() == relay_step(old(self).held(), old(self).is_ready(), e).1,
            final(self).is_ready() == relay_step(old(self).held(), old(self).is_ready(), e).2,
            match e {
                SessionEvent::Output(_) => if old(self).is_ready() {
                    a matches SessionAction::Emit(v) && string_views(v@) == relay_step(
                        old(self).held(),
                        true,
                        e,
                    ).0
                } else {
                    a is Hold
                },
                SessionEvent::Ready => a matches SessionAction::Flush(v) && string_views(v@)
                    == old(self).held(),
                SessionEvent::Input(d) => a matches SessionAction::Write(w) && w@ == d@,
                SessionEvent::Resize { cols, rows } => a == (SessionAction::Resize { cols, rows }),
                SessionEvent::Exited(s) => a == SessionAction::ReportExit(s),
                SessionEvent::Eof | SessionEvent::ChannelClosed => a is CleanUp,
                SessionEvent::Close => a is CloseChannel,
            },
    {
        match e {
            SessionEvent::Output(b) => {
                let text = utf8_lossy(b.as_slice());
                if self.ready {
                    let v = vec![text];
                    assert(string_views(v@) =~= seq![lossy_utf8(b@)]);
                    SessionAction::Emit(v)
                } else {
                    let ghost before = self.held@;
                    self.held.push(text);
                    assert(string_views(self.held@) =~= string_views(before).push(lossy_utf8(b@)));
                    SessionAction::Hold
                }
            },
            SessionEvent::Ready => {
                let mut out: Vec<String> = Vec::new();
                std::mem::swap(&mut out, &mut self.held);
                self.ready = true;
                assert(string_views(self.held@) =~= Seq::<Seq<char>>::empty());
                SessionAction::Flush(out)
            },
            SessionEvent::Input(d) => SessionAction::Write(d),
            SessionEvent::Resize { cols, rows } => SessionAction::Resize { cols, rows },
            SessionEvent::Exited(s) => SessionAction::ReportExit(s),
            SessionEvent::Eof => SessionAction::CleanUp,
            SessionEvent::ChannelClosed => SessionAction::CleanUp,
            SessionEvent::Close => SessionAction::CloseChannel,
        }
    }
}

/// No output is lost or reordered: from a fresh relay (or any state where
/// a ready view holds nothing), what has been emitted followed by what is
/// still held is the output received, in arrival order.
pub proof fn lemma_relay_forwards_all_output(
    held: Seq<Seq<char>>,
    ready: bool,
    events: Seq<SessionEvent>,
)
    requires
        ready ==> held.len() == 0,
    ensures
        relay_run(held, ready, events).0 + relay_run(held, ready, events).1 == held + received(
            events,
        ),
        relay_run(held, ready, events).2 ==> relay_run(held, ready, events).1.len() == 0,
    decreases events.len(),
{
    if events.len() == 0 || stops(events[0]) {
        assert(Seq::<Seq<char>>::empty() + held =~= held + Seq::<Seq<char>>::empty());
    } else {
        let s = relay_step(held, ready, events[0]);
        lemma_relay_forwards_all_output(s.1, s.2, events.drop_first());
        let r = relay_run(s.1, s.2, events.drop_first());
        let rest = received(events.drop_first());
        match events[0] {
            SessionEvent::Output(b) => {
                let t = lossy_utf8(b@);
                if ready {
                    assert(seq![t] + r.0 + r.1 =~= held + (seq![t] + rest));
                } else {
                    assert(Seq::<Seq<char>>::empty() + r.0 + r.1 =~= held + (seq![t] + rest));
                }
            },
            SessionEvent::Ready => {
                assert(held + r.0 + r.1 =~= held + rest);
            },
            _ => {
                assert(Seq::<Seq<char>>::empty() + r.0 + r.1 =~= held + rest);
            },
        }
    }
}

/// Before the view says it is ready, nothing reaches it.
pub proof fn lemma_nothing_emitted_before_ready(held: Seq<Seq<char>>, events: Seq<SessionEvent>)
    requires
        forall|i: int| 0 <= i < events.len() ==> !(#[trigger] events[i] is Ready),
    ensures
        relay_run(held, false, events).0.len() == 0,
        !relay_run(held, false, events).2,
    decreases events.len(),
{
    if events.len() == 0 || stops(events[0]) {
    } else {
        assert(!(events[0] is Ready));
        let s = relay_step(held, false, events[0]);
        assert forall|i: int| 0 <= i < events.drop_first().len() implies !(
        #[trigger] events.drop_first()[i] is Ready) by {
            assert(events.drop_first()[i] == events[i + 1]);
        }
        lemma_nothing_emitted_before_ready(s.1, events.drop_first());
    }
}

} // verus!
