//! Which file backend a connection uses. A connection whose SFTP
//! subsystem answered keeps its session for later operations; one where it
//! did not falls back to shell commands, and that fallback is never
//! remembered, so the next operation probes again.

use vstd::prelude::*;
use crate::table::Table;
use crate::text::str_eq;

verus! {

/// SFTP request size used unless the server advertises smaller limits.
pub const DEFAULT_PACKET_LEN: u32 = 261120;

/// The server advertises the `limits@openssh.com` extension with value `1`.
pub fn limits_supported(value: Option<&str>) -> (b: bool)
    ensures
        b == (value matches Some(v) && v@ == "1"@),
{
    match value {
        Some(v) => str_eq(v, "1"),
        None => false,
    }
}

/// A request size: the default, lowered to what the server advertises.
pub open spec fn negotiated(advertised: Option<u64>) -> u32 {
    match advertised {
        Some(r) => if r < DEFAULT_PACKET_LEN {
            r as u32
        } else {
            DEFAULT_PACKET_LEN
        },
        None => DEFAULT_PACKET_LEN,
    }
}

/// Request sizes of an SFTP session.
pub struct PacketLimits {
    pub read_len: u32,
    pub write_len: u32,
}

/// The request sizes from the server's advertised read and write limits
/// (`None` when it advertised none, or the query failed).
pub fn packet_limits(limits: Option<(Option<u64>, Option<u64>)>) -> (p: PacketLimits)
    ensures
        match limits {
            Some((r, w)) => p.read_len == negotiated(r) && p.write_len == negotiated(w),
            None => p.read_len == DEFAULT_PACKET_LEN && p.write_len == DEFAULT_PACKET_LEN,
        },
{
    match limits {
        Some((r, w)) => PacketLimits { read_len: negotiate(r), write_len: negotiate(w) },
        None => PacketLimits { read_len: DEFAULT_PACKET_LEN, write_len: DEFAULT_PACKET_LEN },
    }
}

fn negotiate(advertised: Option<u64>) -> (n: u32)
    ensures
        n == negotiated(advertised),
{
    match advertised {
        Some(r) => if r < DEFAULT_PACKET_LEN as u64 {
            r as u32
        } else {
            DEFAULT_PACKET_LEN
        },
        None => DEFAULT_PACKET_LEN,
    }
}

/// What to do for an operation on a connection.
pub enum BackendChoice<'a, T> {
    /// Use the SFTP session found for the connection.
    Sftp(&'a T),
    /// Probe the connection's SFTP subsystem first.
    Probe,
}

/// The SFTP sessions of the connections whose subsystem answered, by
/// connection id.
pub struct BackendCache<T> {
    sessions: Table<String, T>,
}

impl<T> BackendCache<T> {
    pub closed spec fn view(&self) -> Map<Seq<char>, T> {
        self.sessions.view()
    }

    pub fn new() -> (c: BackendCache<T>)
        ensures
            c.view() == Map::<Seq<char>, T>::empty(),
    {
        BackendCache { sessions: Table::new() }
    }

    /// The session kept for a connection, or a probe.
    pub fn backend_for(&self, connection_id: &String) -> (c: BackendChoice<'_, T>)
        ensures
            match c {
                BackendChoice::Sftp(s) => self.view().contains_key(connection_id@) && *s
                    == self.view()[connection_id@],
                BackendChoice::Probe => !self.view().contains_key(connection_id@),
            },
    {
        match self.sessions.get(connection_id) {
            Some(s) => BackendChoice::Sftp(s),
            None => BackendChoice::Probe,
        }
    }

    /// Records what a probe found: a working session is kept; a failed
    /// probe (the shell fallback) leaves nothing behind.
    pub fn record_probe(&mut self, connection_id: String, session: Option<T>)
        ensures
            match session {
                Some(s) => final(self).view() == old(self).view().insert(connection_id@, s),
                None => final(self).view() == old(self).view(),
            },
    {
        match session {
            Some(s) => self.sessions.insert(connection_id, s),
            None => {},
        }
    }

    /// Forgets a connection's session (on disconnect, or when it died);
    /// the session handed back is the one to close.
    pub fn invalidate(&mut self, connection_id: &String) -> (r: Option<T>)
        ensures
            final(self).view() == old(self).view().remove(connection_id@),
            match r {
                Some(s) => old(self).view().contains_key(connection_id@) && s == old(
                    self,
                ).view()[connection_id@],
                None => !old(self).view().contains_key(connection_id@),
            },
    {
        self.sessions.remove(connection_id)
    }
}

} // verus!
