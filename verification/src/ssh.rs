//! SSH connection parameters and the values exchanged with the interface
//! about connections and host keys. The network work itself stays outside
//! the library.

use vstd::prelude::*;
use crate::text::{chars_of, push_dec, push_str, str_eq, string_of, trim, trim_chars};

verus! {

/// Cascading SSH auth parameters, tried in order: configured key, then
/// ssh-agent identities, then password. The first method the server
/// accepts wins.
pub struct AuthParams {
    pub key: Option<KeyAuth>,
    pub password: Option<String>,
    pub allow_agent: bool,
}

/// A private key file and its optional passphrase.
pub struct KeyAuth {
    pub path: String,
    pub passphrase: Option<String>,
}

impl AuthParams {
    /// Password auth, with the agent still allowed.
    pub fn from_password(password: String) -> (p: Self)
        ensures
            p.key is None,
            p.password == Some(password),
            p.allow_agent,
    {
        AuthParams { key: None, password: Some(password), allow_agent: true }
    }

    /// Key-file auth, with the agent still allowed.
    pub fn from_key(path: String, passphrase: Option<String>) -> (p: Self)
        ensures
            p.key matches Some(k) && k.path == path && k.passphrase == passphrase,
            p.password is None,
            p.allow_agent,
    {
        AuthParams { key: Some(KeyAuth { path, passphrase }), password: None, allow_agent: true }
    }

    /// Agent-only auth.
    pub fn from_agent() -> (p: Self)
        ensures
            p.key is None,
            p.password is None,
            p.allow_agent,
    {
        AuthParams { key: None, password: None, allow_agent: true }
    }
}

/// Parameters for a single jump host in a proxy chain.
pub struct JumpHostParams {
    pub host: String,
    pub port: u16,
    pub username: String,
    pub auth: AuthParams,
}

/// A live connection as the interface lists it.
pub struct ConnectionInfo {
    pub id: String,
    pub host: String,
    pub port: u16,
    pub username: String,
}

/// The user's answer to a host-key prompt.
#[derive(PartialEq, Eq, Structural)]
pub enum HostKeyDecision {
    /// Accept and save the fingerprint to known_hosts.
    Accept,
    /// Accept for this session only, do not persist.
    AcceptOnce,
    /// Reject the connection.
    Reject,
}

/// Sent to the interface when a host key needs the user's confirmation.
pub struct HostKeyVerifyEvent {
    pub host: String,
    pub port: u16,
    pub fingerprint: String,
    pub key_type: String,
    /// True for a brand-new host, false when the key has changed.
    pub is_new: bool,
    /// The previously saved fingerprint (only set when `is_new` is false).
    pub old_fingerprint: Option<String>,
    /// Unix time in milliseconds at which the connection attempt times out.
    pub deadline_ms: u64,
}

/// One chunk of streamed command output.
pub struct StreamingOutputEvent {
    pub run_id: String,
    pub stream: String,
    pub data: String,
}

/// Errors of the SSH layer.
pub enum SshError {
    ConnectionFailed(String),
    AuthFailed,
    ChannelError(String),
    NotFound(String),
    SendError(String),
}

/// The text of an SSH error, as the interface shows it.
pub open spec fn ssh_error_text(e: SshError) -> Seq<char> {
    match e {
        SshError::ConnectionFailed(m) => "Connection failed: "@ + m@,
        SshError::AuthFailed => "Authentication rejected — server did not accept the public key (not in authorized_keys?) or password is wrong"@,
        SshError::ChannelError(m) => "Channel error: "@ + m@,
        SshError::NotFound(m) => "Connection not found: "@ + m@,
        SshError::SendError(m) => "Send error: "@ + m@,
    }
}

impl SshError {
    /// The error's message.
    pub fn message(&self) -> (s: String)
        ensures
            s@ == ssh_error_text(*self),
    {
        match self {
            SshError::ConnectionFailed(m) => {
                let mut s = String::from_str("Connection failed: ");
                push_str(&mut s, m.as_str());
                s
            },
            SshError::AuthFailed => String::from_str(
                "Authentication rejected — server did not accept the public key (not in authorized_keys?) or password is wrong",
            ),
            SshError::ChannelError(m) => {
                let mut s = String::from_str("Channel error: ");
                push_str(&mut s, m.as_str());
                s
            },
            SshError::NotFound(m) => {
                let mut s = String::from_str("Connection not found: ");
                push_str(&mut s, m.as_str());
                s
            },
            SshError::SendError(m) => {
                let mut s = String::from_str("Send error: ");
                push_str(&mut s, m.as_str());
                s
            },
        }
    }
}

/// Saved host keys: `host:port` to fingerprint, each host once.
pub struct KnownHosts {
    entries: Vec<(String, String)>,
}

/// The key under which a host's fingerprint is saved: `host:port`.
pub open spec fn host_key_id_spec(host: Seq<char>, port: u16) -> Seq<char> {
    host + seq![':'] + crate::text::dec(port as nat)
}

/// The outcome of checking a server key against the saved ones.
pub enum HostKeyCheck {
    /// The saved fingerprint matches: accept silently.
    Known,
    /// New host, or a changed key: ask the user.
    Prompt { is_new: bool, old_fingerprint: Option<String> },
}

impl KnownHosts {
    #[verifier::type_invariant]
    spec fn keys_unique(self) -> bool {
        forall|a: int, b: int|
            0 <= a < b < self.entries@.len() ==> self.entries@[a].0@ != self.entries@[b].0@
    }

    /// The saved fingerprints by host id.
    pub closed spec fn view(self) -> Map<Seq<char>, Seq<char>> {
        Map::new(
            |k: Seq<char>| exists|i: int| 0 <= i < self.entries@.len() && self.entries@[i].0@ == k,
            |k: Seq<char>|
                self.entries@[choose|i: int| 0 <= i < self.entries@.len() && self.entries@[i].0@ == k].1@,
        )
    }

    /// No saved hosts.
    pub fn new() -> (k: KnownHosts)
        ensures
            k.view() == Map::<Seq<char>, Seq<char>>::empty(),
    {
        let k = KnownHosts { entries: Vec::new() };
        assert(k.view() =~= Map::<Seq<char>, Seq<char>>::empty());
        k
    }

    fn find(&self, host_id: &str) -> (r: Option<usize>)
        ensures
            match r {
                Some(i) => i < self.entries@.len() && self.entries@[i as int].0@ == host_id@,
                None => forall|i: int| 0 <= i < self.entries@.len() ==> self.entries@[i].0@ != host_id@,
            },
    {
        let mut i: usize = 0;
        while i < self.entries.len()
            invariant
                i <= self.entries@.len(),
                forall|j: int| 0 <= j < i ==> self.entries@[j].0@ != host_id@,
            decreases self.entries@.len() - i,
        {
            if str_eq(self.entries[i].0.as_str(), host_id) {
                return Some(i);
            }
            i = i + 1;
        }
        None
    }

    /// The saved fingerprint of a host.
    pub fn get(&self, host_id: &str) -> (r: Option<String>)
        ensures
            match r {
                Some(f) => self.view().contains_key(host_id@) && self.view()[host_id@] == f@,
                None => !self.view().contains_key(host_id@),
            },
    {
        proof {
            use_type_invariant(self);
        }
        match self.find(host_id) {
            Some(i) => {
                proof {
                    let c = choose|j: int| 0 <= j < self.entries@.len() && self.entries@[j].0@ == host_id@;
                    assert(c == i as int);
                }
                Some(String::from_str(self.entries[i].1.as_str()))
            },
            None => None,
        }
    }

    /// Checks a server key: a matching saved fingerprint is accepted; a
    /// new host or a changed key needs the user's decision.
    pub fn check(&self, host_id: &str, fingerprint: &str) -> (c: HostKeyCheck)
        ensures
            match c {
                HostKeyCheck::Known => self.view().contains_key(host_id@) && self.view()[host_id@] == fingerprint@,
                HostKeyCheck::Prompt { is_new, old_fingerprint } => !(self.view().contains_key(host_id@)
                    && self.view()[host_id@] == fingerprint@) && is_new == !self.view().contains_key(host_id@)
                    && match old_fingerprint {
                        Some(o) => self.view().contains_key(host_id@) && o@ == self.view()[host_id@],
                        None => !self.view().contains_key(host_id@),
                    },
            },
    {
        match self.get(host_id) {
            Some(existing) => {
                if str_eq(existing.as_str(), fingerprint) {
                    HostKeyCheck::Known
                } else {
                    HostKeyCheck::Prompt { is_new: false, old_fingerprint: Some(existing) }
                }
            },
            None => HostKeyCheck::Prompt { is_new: true, old_fingerprint: None },
        }
    }

    /// Saves (or replaces) a host's fingerprint.
    pub fn insert(&mut self, host_id: &str, fingerprint: &str)
        ensures
            final(self).view() == old(self).view().insert(host_id@, fingerprint@),
    {
        proof {
            use_type_invariant(&*self);
        }
        let ghost old_entries = self.entries@;
        let mut entries = Vec::new();
        std::mem::swap(&mut entries, &mut self.entries);
        let pos = self.find_in(&entries, host_id);
        match pos {
            Some(i) => {
                entries.set(i, (String::from_str(host_id), String::from_str(fingerprint)));
            },
            None => {
                entries.push((String::from_str(host_id), String::from_str(fingerprint)));
            },
        }
        let ghost ne = entries@;
        proof {
            match pos {
                Some(i) => {
                    assert forall|j: int| 0 <= j < ne.len() && j != i as int implies ne[j] == old_entries[j] by {}
                    assert(ne.len() == old_entries.len());
                    assert(ne[i as int].0@ == host_id@ && ne[i as int].1@ == fingerprint@);
                },
                None => {
                    assert forall|j: int| 0 <= j < old_entries.len() implies ne[j] == old_entries[j] by {}
                    assert(ne.len() == old_entries.len() + 1);
                    assert(ne[old_entries.len() as int].0@ == host_id@);
                    assert(ne[old_entries.len() as int].1@ == fingerprint@);
                },
            }
            assert forall|a: int, b: int| 0 <= a < b < ne.len() implies ne[a].0@ != ne[b].0@ by {
                match pos {
                    Some(i) => {
                        if a == i as int {
                            assert(old_entries[a].0@ == host_id@);
                            assert(ne[b] == old_entries[b]);
                        } else if b == i as int {
                            assert(old_entries[b].0@ == host_id@);
                            assert(ne[a] == old_entries[a]);
                        } else {
                            assert(ne[a] == old_entries[a]);
                            assert(ne[b] == old_entries[b]);
                        }
                    },
                    None => {
                        if b == old_entries.len() as int {
                            assert(ne[a] == old_entries[a]);
                        } else {
                            assert(ne[a] == old_entries[a]);
                            assert(ne[b] == old_entries[b]);
                        }
                    },
                }
            }
        }
        self.entries = entries;
        proof {
            let m = self.view();
            let o = old(self).view().insert(host_id@, fingerprint@);
            let idx: int = match pos {
                Some(i) => i as int,
                None => old_entries.len() as int,
            };
            assert(ne[idx].0@ == host_id@ && ne[idx].1@ == fingerprint@);
            assert forall|k: Seq<char>| #[trigger] m.contains_key(k) == o.contains_key(k) by {
                if k == host_id@ {
                    assert(self.entries@[idx].0@ == k);
                } else {
                    if old(self).view().contains_key(k) {
                        let j = choose|j: int| 0 <= j < old_entries.len() && old_entries[j].0@ == k;
                        assert(j != idx);
                        assert(ne[j] == old_entries[j]);
                        assert(self.entries@[j].0@ == k);
                    }
                    if m.contains_key(k) {
                        let j = choose|j: int| 0 <= j < ne.len() && ne[j].0@ == k;
                        assert(j != idx);
                        assert(j < old_entries.len());
                        assert(ne[j] == old_entries[j]);
                    }
                }
            }
            assert forall|k: Seq<char>| m.contains_key(k) implies #[trigger] m[k] == o[k] by {
                let j = choose|j: int| 0 <= j < ne.len() && ne[j].0@ == k;
                if k == host_id@ {
                    assert(j == idx);
                } else {
                    assert(j != idx);
                    assert(j < old_entries.len());
                    assert(ne[j] == old_entries[j]);
                    let jo = choose|jo: int| 0 <= jo < old_entries.len() && old_entries[jo].0@ == k;
                    assert(jo == j);
                }
            }
            assert(m =~= o);
        }
    }

    fn find_in(&self, entries: &Vec<(String, String)>, host_id: &str) -> (r: Option<usize>)
        ensures
            match r {
                Some(i) => i < entries@.len() && entries@[i as int].0@ == host_id@,
                None => forall|i: int| 0 <= i < entries@.len() ==> entries@[i].0@ != host_id@,
            },
    {
        let mut i: usize = 0;
        while i < entries.len()
            invariant
                i <= entries@.len(),
                forall|j: int| 0 <= j < i ==> entries@[j].0@ != host_id@,
            decreases entries@.len() - i,
        {
            if str_eq(entries[i].0.as_str(), host_id) {
                return Some(i);
            }
            i = i + 1;
        }
        None
    }
}

/// The key under which a host's fingerprint is saved.
pub fn host_key_id(host: &str, port: u16) -> (s: String)
    ensures
        s@ == host_key_id_spec(host@, port),
{
    let mut s = String::from_str(host);
    s.push(':');
    push_dec(&mut s, port as u64);
    s
}

/// What the user's decision on a host key means: whether the connection
/// goes on, and whether the fingerprint is saved. A prompt that got no
/// answer (`None`) rejects.
pub fn decision_effect(decision: Option<HostKeyDecision>) -> (r: (bool, bool))
    ensures
        r == (match decision {
            Some(HostKeyDecision::Accept) => (true, true),
            Some(HostKeyDecision::AcceptOnce) => (true, false),
            _ => (false, false),
        }),
{
    match decision {
        Some(HostKeyDecision::Accept) => (true, true),
        Some(HostKeyDecision::AcceptOnce) => (true, false),
        _ => (false, false),
    }
}

/// After a fingerprint is saved for a host, checking that host with the
/// same fingerprint accepts it silently, and the other hosts' fingerprints
/// are unchanged.
pub proof fn lemma_saved_key_is_known(
    before: Map<Seq<char>, Seq<char>>,
    host_id: Seq<char>,
    fingerprint: Seq<char>,
    other: Seq<char>,
)
    ensures
        before.insert(host_id, fingerprint).contains_key(host_id),
        before.insert(host_id, fingerprint)[host_id] == fingerprint,
        other != host_id ==> (before.insert(host_id, fingerprint).contains_key(other)
            == before.contains_key(other)),
        other != host_id && before.contains_key(other) ==> before.insert(host_id, fingerprint)[other]
            == before[other],
{
}

/// How a key path with a leading `~` resolves against the home directory.
pub enum TildePath {
    /// `~` alone: the home directory.
    Home,
    /// `~/rest` or `~\rest`: `rest` under the home directory.
    UnderHome(String),
    /// Anything else, trimmed, as it is.
    AsIs(String),
}

/// What `tilde_path` decides for a path.
pub open spec fn tilde_spec(path: Seq<char>) -> (int, Seq<char>) {
    let t = trim(path);
    if t == "~"@ {
        (0, Seq::<char>::empty())
    } else if t.len() >= 2 && t[0] == '~' && (t[1] == '/' || t[1] == '\\') {
        (1, t.skip(2))
    } else {
        (2, t)
    }
}

/// Classifies a key path: the whitespace-trimmed path is the home
/// directory itself (`~`), a path under it (`~/` or `~\` prefix), or
/// taken as it is.
pub fn tilde_path(path: &str) -> (r: TildePath)
    ensures
        match r {
            TildePath::Home => tilde_spec(path@).0 == 0,
            TildePath::UnderHome(rest) => tilde_spec(path@) == (1int, rest@),
            TildePath::AsIs(p) => tilde_spec(path@) == (2int, p@),
        },
{
    proof {
        reveal_strlit("~");
    }
    let t = trim_chars(&chars_of(path));
    if t.len() == 1 && t[0] == '~' {
        proof {
            assert(t@ =~= "~"@);
        }
        return TildePath::Home;
    }
    proof {
        if t@ == "~"@ {
            assert(t@.len() == 1);
        }
    }
    if t.len() >= 2 && t[0] == '~' && (t[1] == '/' || t[1] == '\\') {
        let rest = crate::text::slice_chars(&t, 2, t.len());
        proof {
            assert(t@.subrange(2, t@.len() as int) =~= t@.skip(2));
        }
        return TildePath::UnderHome(string_of(rest.as_slice()));
    }
    TildePath::AsIs(string_of(t.as_slice()))
}

/// The authentication methods, in the order they are tried.
#[derive(PartialEq, Eq, Structural, Clone, Copy)]
pub enum AuthMethod {
    Key,
    Agent,
    Password,
}

/// Rank of a method in the cascade.
pub open spec fn method_rank(m: AuthMethod) -> int {
    match m {
        AuthMethod::Key => 0,
        AuthMethod::Agent => 1,
        AuthMethod::Password => 2,
    }
}

/// Whether the parameters offer a method.
pub open spec fn offers(p: AuthParams, m: AuthMethod) -> bool {
    match m {
        AuthMethod::Key => p.key is Some,
        AuthMethod::Agent => p.allow_agent,
        AuthMethod::Password => p.password is Some,
    }
}

/// The next method of the cascade after `last` (`None`: before the first
/// one) that the parameters offer; `None` when none is left and the
/// server accepted nothing.
pub fn next_auth_method(params: &AuthParams, last: Option<AuthMethod>) -> (r: Option<AuthMethod>)
    ensures
        match r {
            Some(m) => offers(*params, m) && (last matches Some(l) ==> method_rank(l) < method_rank(m))
                && forall|o: AuthMethod|
                    offers(*params, o) && (last matches Some(l) ==> method_rank(l) < method_rank(o))
                        ==> method_rank(m) <= method_rank(o),
            None => forall|o: AuthMethod|
                offers(*params, o) ==> (last matches Some(l) && method_rank(o) <= method_rank(l)),
        },
{
    let start: u8 = match last {
        None => 0,
        Some(AuthMethod::Key) => 1,
        Some(AuthMethod::Agent) => 2,
        Some(AuthMethod::Password) => 3,
    };
    if start <= 0 && params.key.is_some() {
        return Some(AuthMethod::Key);
    }
    if start <= 1 && params.allow_agent {
        return Some(AuthMethod::Agent);
    }
    if start <= 2 && params.password.is_some() {
        return Some(AuthMethod::Password);
    }
    None
}

} // verus!
