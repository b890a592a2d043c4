//! Collecting what a remote command sends back on its channel: stdout and
//! stderr (each read as lossy UTF-8), the exit status, and when the
//! command is over (EOF and exit status both seen, in either order, or the
//! channel gone).

use vstd::prelude::*;
use crate::remote_fs::{lossy_utf8, utf8_lossy};
use crate::text::push_str;

verus! {

/// A message of a command's channel, as the collector sees it.
pub enum ChannelMessage {
    Stdout(Vec<u8>),
    Stderr(Vec<u8>),
    Eof,
    ExitStatus(u32),
    /// The channel closed, or waiting for it timed out.
    Closed,
    /// Window adjustments and the like.
    Other,
}

/// Whether a command's channel is over: EOF and the exit status both
/// arrived (in either order), or the channel is gone.
pub struct ChannelEnd {
    pub got_eof: bool,
    pub got_exit: bool,
}

impl ChannelEnd {
    pub fn new() -> (e: ChannelEnd)
        ensures
            !e.got_eof && !e.got_exit,
    {
        ChannelEnd { got_eof: false, got_exit: false }
    }

    /// Takes one message; the result says whether the command is over.
    pub fn on_message(&mut self, m: &ChannelMessage) -> (done: bool)
        ensures
            final(self).got_eof == (old(self).got_eof || *m is Eof),
            final(self).got_exit == (old(self).got_exit || *m is ExitStatus),
            done == match *m {
                ChannelMessage::Eof => old(self).got_exit,
                ChannelMessage::ExitStatus(_) => old(self).got_eof,
                ChannelMessage::Closed => true,
                _ => false,
            },
    {
        match m {
            ChannelMessage::Eof => {
                self.got_eof = true;
                self.got_exit
            },
            ChannelMessage::ExitStatus(_) => {
                self.got_exit = true;
                self.got_eof
            },
            ChannelMessage::Closed => true,
            _ => false,
        }
    }
}

/// What a command sent back so far.
pub struct CommandOutput {
    pub stdout: String,
    pub stderr: String,
    /// The exit status, or -1 while none arrived.
    pub exit_code: i32,
    /// EOF arrived.
    pub got_eof: bool,
    /// The exit status arrived.
    pub got_exit: bool,
}

impl CommandOutput {
    pub fn new() -> (c: CommandOutput)
        ensures
            c.stdout@.len() == 0 && c.stderr@.len() == 0 && c.exit_code == -1,
            !c.got_eof && !c.got_exit,
    {
        CommandOutput {
            stdout: String::new(),
            stderr: String::new(),
            exit_code: -1,
            got_eof: false,
            got_exit: false,
        }
    }

    /// Takes one message; the result says whether the command is over.
    pub fn on_message(&mut self, m: ChannelMessage) -> (done: bool)
        ensures
            match m {
                ChannelMessage::Stdout(b) => {
                    &&& final(self).stdout@ == old(self).stdout@ + lossy_utf8(b@)
                    &&& final(self).stderr@ == old(self).stderr@
                    &&& final(self).exit_code == old(self).exit_code
                    &&& final(self).got_eof == old(self).got_eof
                    &&& final(self).got_exit == old(self).got_exit
                    &&& !done
                },
                ChannelMessage::Stderr(b) => {
                    &&& final(self).stdout@ == old(self).stdout@
                    &&& final(self).stderr@ == old(self).stderr@ + lossy_utf8(b@)
                    &&& final(self).exit_code == old(self).exit_code
                    &&& final(self).got_eof == old(self).got_eof
                    &&& final(self).got_exit == old(self).got_exit
                    &&& !done
                },
                ChannelMessage::Eof => {
                    &&& final(self).stdout@ == old(self).stdout@
                    &&& final(self).stderr@ == old(self).stderr@
                    &&& final(self).exit_code == old(self).exit_code
                    &&& final(self).got_eof
                    &&& final(self).got_exit == old(self).got_exit
                    &&& done == old(self).got_exit
                },
                ChannelMessage::ExitStatus(s) => {
                    &&& final(self).stdout@ == old(self).stdout@
                    &&& final(self).stderr@ == old(self).stderr@
                    &&& final(self).exit_code == s as i32
                    &&& final(self).got_eof == old(self).got_eof
                    &&& final(self).got_exit
                    &&& done == old(self).got_eof
                },
                ChannelMessage::Closed => {
                    &&& final(self).stdout@ == old(self).stdout@
                    &&& final(self).stderr@ == old(self).stderr@
                    &&& final(self).exit_code == old(self).exit_code
                    &&& done
                },
                ChannelMessage::Other => {
                    &&& final(self).stdout@ == old(self).stdout@
                    &&& final(self).stderr@ == old(self).stderr@
                    &&& final(self).exit_code == old(self).exit_code
                    &&& final(self).got_eof == old(self).got_eof
                    &&& final(self).got_exit == old(self).got_exit
                    &&& !done
                },
            },
    {
        match m {
            ChannelMessage::Stdout(b) => {
                let t = utf8_lossy(b.as_slice());
                push_str(&mut self.stdout, t.as_str());
                false
            },
            ChannelMessage::Stderr(b) => {
                let t = utf8_lossy(b.as_slice());
                push_str(&mut self.stderr, t.as_str());
                false
            },
            ChannelMessage::Eof => {
                self.got_eof = true;
                self.got_exit
            },
            ChannelMessage::ExitStatus(s) => {
                self.exit_code = s as i32;
                self.got_exit = true;
                self.got_eof
            },
            ChannelMessage::Closed => true,
            ChannelMessage::Other => false,
        }
    }
}

} // verus!
