//! How a connection reaches its host: through a proxy (SOCKS5, SOCKS4 or
//! an HTTP `CONNECT` tunnel) or through a chain of jump hosts, each hop
//! tunnelled through the one before.

use vstd::prelude::*;
use vstd::utf8::encode_utf8;
use crate::exec_backend::{base64_standard_encode, standard_base64_encoded};
use crate::identity::ProxyConfig;
use crate::models::occurs;
use crate::remote_fs::{lossy_utf8, utf8_lossy};
use crate::ssh::SshError;
use crate::terminal::{lines_of, lines_vec};
use crate::text::{chars_of, dec, lowercase_of, push_dec, push_str, str_eq, string_of, to_lowercase};

verus! {

// ---------------------------------------------------------------------------
// Proxies
// ---------------------------------------------------------------------------

/// The proxy protocols a connection can go through.
pub enum ProxyKind {
    Socks5,
    Socks4,
    Http,
}

/// What the connection needs of a proxy: its protocol, `host:port`, and
/// the user name and password when both are set.
pub struct ProxyRoute {
    pub kind: ProxyKind,
    pub address: String,
    pub credentials: Option<(String, String)>,
}

pub open spec fn proxy_kind_of(proxy_type: Seq<char>) -> Option<ProxyKind> {
    let t = lowercase_of(proxy_type);
    if t == "socks5"@ {
        Some(ProxyKind::Socks5)
    } else if t == "socks4"@ {
        Some(ProxyKind::Socks4)
    } else if t == "http"@ {
        Some(ProxyKind::Http)
    } else {
        None
    }
}

/// `host:port`.
pub open spec fn host_port(host: Seq<char>, port: u16) -> Seq<char> {
    host + ":"@ + dec(port as nat)
}

fn push_host_port(s: &mut String, host: &str, port: u16)
    ensures
        final(s)@ == old(s)@ + host_port(host@, port),
{
    push_str(s, host);
    push_str(s, ":");
    push_dec(s, port as u64);
    assert(final(s)@ =~= old(s)@ + host_port(host@, port));
}

/// Reads a proxy configuration: its type, case-insensitively, must be one
/// of `socks5`, `socks4` or `http`.
pub fn proxy_route(proxy: &ProxyConfig) -> (r: Result<ProxyRoute, SshError>)
    ensures
        match proxy_kind_of(proxy.proxy_type@) {
            Some(k) => r matches Ok(route) && route.kind == k && route.address@ == host_port(
                proxy.host@,
                proxy.port,
            ) && match (proxy.username, proxy.password) {
                (Some(u), Some(p)) => route.credentials matches Some(c) && c.0@ == u@ && c.1@ == p@,
                _ => route.credentials is None,
            },
            None => r matches Err(SshError::ConnectionFailed(m)) && m@ == "Unsupported proxy type: "@
                + proxy.proxy_type@,
        },
{
    let t = to_lowercase(proxy.proxy_type.as_str());
    let kind = if str_eq(t.as_str(), "socks5") {
        ProxyKind::Socks5
    } else if str_eq(t.as_str(), "socks4") {
        ProxyKind::Socks4
    } else if str_eq(t.as_str(), "http") {
        ProxyKind::Http
    } else {
        let mut m = String::from_str("Unsupported proxy type: ");
        push_str(&mut m, proxy.proxy_type.as_str());
        return Err(SshError::ConnectionFailed(m));
    };
    let mut address = String::new();
    push_host_port(&mut address, proxy.host.as_str(), proxy.port);
    let credentials = match (&proxy.username, &proxy.password) {
        (Some(u), Some(p)) => Some((u.clone(), p.clone())),
        _ => None,
    };
    Ok(ProxyRoute { kind, address, credentials })
}

/// The `CONNECT` request an HTTP proxy is sent, with Basic credentials
/// (`user:password` in base64) when there are some.
pub open spec fn connect_request(
    host: Seq<char>,
    port: u16,
    credentials: Option<(Seq<char>, Seq<char>)>,
) -> Seq<char> {
    let target = host_port(host, port);
    "CONNECT "@ + target + " HTTP/1.1\r\nHost: "@ + target + "\r\n"@ + match credentials {
        Some(c) => "Proxy-Authorization: Basic "@ + standard_base64_encoded(
            encode_utf8(c.0 + ":"@ + c.1),
        ) + "\r\n"@,
        None => Seq::empty(),
    } + "\r\n"@
}

pub open spec fn credential_views(c: Option<(String, String)>) -> Option<(Seq<char>, Seq<char>)> {
    match c {
        Some(p) => Some((p.0@, p.1@)),
        None => None,
    }
}

/// Builds the `CONNECT` request for the target.
pub fn http_connect_request(host: &str, port: u16, credentials: &Option<(String, String)>) -> (r:
    String)
    ensures
        r@ == connect_request(host@, port, credential_views(*credentials)),
{
    let mut target = String::new();
    push_host_port(&mut target, host, port);
    let mut r = String::from_str("CONNECT ");
    push_str(&mut r, target.as_str());
    push_str(&mut r, " HTTP/1.1\r\nHost: ");
    push_str(&mut r, target.as_str());
    push_str(&mut r, "\r\n");
    match credentials {
        Some((u, p)) => {
            let mut pair = u.clone();
            push_str(&mut pair, ":");
            push_str(&mut pair, p.as_str());
            let creds = base64_standard_encode(pair.as_str().as_bytes_vec().as_slice());
            push_str(&mut r, "Proxy-Authorization: Basic ");
            push_str(&mut r, creds.as_str());
            push_str(&mut r, "\r\n");
        },
        None => {},
    }
    push_str(&mut r, "\r\n");
    r
}

/// The first line of a text, or nothing.
pub open spec fn first_line(s: Seq<char>) -> Seq<char> {
    if lines_of(s).len() > 0 {
        lines_of(s)[0]
    } else {
        Seq::empty()
    }
}

/// Reads the proxy's answer to `CONNECT` (its first read, as lossy UTF-8):
/// the tunnel is up when it holds `200`; otherwise the connection fails
/// with the answer's first line.
pub fn http_connect_outcome(response: &[u8]) -> (r: Result<(), SshError>)
    ensures
        occurs(lossy_utf8(response@), "200"@) ==> r is Ok,
        !occurs(lossy_utf8(response@), "200"@) ==> (r matches Err(SshError::ConnectionFailed(m))
            && m@ == "HTTP proxy rejected: "@ + first_line(lossy_utf8(response@))),
{
    let text = chars_of(utf8_lossy(response).as_str());
    if crate::exec_backend::occurs_in(&text, "200") {
        return Ok(());
    }
    let ls = lines_vec(&text);
    let mut m = String::from_str("HTTP proxy rejected: ");
    if ls.len() > 0 {
        let first = string_of(ls[0].as_slice());
        push_str(&mut m, first.as_str());
    } else {
        assert(m@ =~= "HTTP proxy rejected: "@ + Seq::<char>::empty());
    }
    Err(SshError::ConnectionFailed(m))
}

// ---------------------------------------------------------------------------
// Jump hosts
// ---------------------------------------------------------------------------

/// One step of a connection through jump hosts.
pub enum HopStep {
    /// Connect straight to the first jump host.
    Direct { host: String, port: u16 },
    /// Open a tunnel through the previous hop to a further jump host.
    Jump { host: String, port: u16 },
    /// Open a tunnel through the last jump host to the target.
    Target { host: String, port: u16 },
}

pub open spec fn hop_view(h: HopStep) -> (int, Seq<char>, u16) {
    match h {
        HopStep::Direct { host, port } => (0, host@, port),
        HopStep::Jump { host, port } => (1, host@, port),
        HopStep::Target { host, port } => (2, host@, port),
    }
}

/// The steps to reach `target` through `jumps`, in order: the first jump
/// host directly, each further one through the one before, then the
/// target through the last.
pub fn jump_steps(jumps: &Vec<(String, u16)>, target_host: &str, target_port: u16) -> (r: Vec<
    HopStep,
>)
    requires
        jumps@.len() > 0,
    ensures
        r@.len() == jumps@.len() + 1,
        hop_view(r@[0]) == (0int, jumps@[0].0@, jumps@[0].1),
        forall|i: int|
            1 <= i < jumps@.len() ==> hop_view(#[trigger] r@[i]) == (1int, jumps@[i].0@, jumps@[i].1),
        hop_view(r@[jumps@.len() as int]) == (2int, target_host@, target_port),
{
    let mut r: Vec<HopStep> = Vec::new();
    r.push(HopStep::Direct { host: jumps[0].0.clone(), port: jumps[0].1 });
    let mut i: usize = 1;
    while i < jumps.len()
        invariant
            1 <= i <= jumps@.len(),
            r@.len() == i,
            hop_view(r@[0]) == (0int, jumps@[0].0@, jumps@[0].1),
            forall|k: int| 1 <= k < i ==> hop_view(#[trigger] r@[k]) == (1int, jumps@[k].0@, jumps@[k].1),
        decreases jumps@.len() - i,
    {
        r.push(HopStep::Jump { host: jumps[i].0.clone(), port: jumps[i].1 });
        i = i + 1;
    }
    r.push(HopStep::Target { host: String::from_str(target_host), port: target_port });
    r
}

/// The failure of a step's SSH connection (or, for the first step, its
/// TCP connection), with the underlying error's text.
pub fn connect_failure(step: &HopStep, err: &str) -> (e: SshError)
    ensures
        e matches SshError::ConnectionFailed(m) && m@ == match *step {
            HopStep::Direct { host, port } => "Jump host "@ + host@ + " connection failed: "@ + err@,
            HopStep::Jump { host, port } => "SSH over tunnel to "@ + host@ + " failed: "@ + err@,
            HopStep::Target { host, port } => "SSH to target "@ + host_port(host@, port)
                + " via jump failed: "@ + err@,
        },
{
    let mut m = String::new();
    match step {
        HopStep::Direct { host, port } => {
            push_str(&mut m, "Jump host ");
            push_str(&mut m, host.as_str());
            push_str(&mut m, " connection failed: ");
        },
        HopStep::Jump { host, port } => {
            push_str(&mut m, "SSH over tunnel to ");
            push_str(&mut m, host.as_str());
            push_str(&mut m, " failed: ");
        },
        HopStep::Target { host, port } => {
            push_str(&mut m, "SSH to target ");
            push_host_port(&mut m, host.as_str(), *port);
            push_str(&mut m, " via jump failed: ");
        },
    }
    push_str(&mut m, err);
    SshError::ConnectionFailed(m)
}

/// The failure to open the tunnel of a step (the first step opens none).
pub fn tunnel_failure(step: &HopStep, err: &str) -> (e: SshError)
    requires
        !(*step is Direct),
    ensures
        e matches SshError::ConnectionFailed(m) && m@ == match *step {
            HopStep::Target { host, port } => "Failed to open tunnel to target "@ + host_port(
                host@,
                port,
            ) + ": "@ + err@,
            HopStep::Jump { host, port } => "Failed to open tunnel to "@ + host@ + ": "@ + err@,
            HopStep::Direct { host, port } => Seq::empty(),
        },
{
    let mut m = String::new();
    match step {
        HopStep::Target { host, port } => {
            push_str(&mut m, "Failed to open tunnel to target ");
            push_host_port(&mut m, host.as_str(), *port);
        },
        HopStep::Jump { host, port } => {
            push_str(&mut m, "Failed to open tunnel to ");
            push_str(&mut m, host.as_str());
        },
        HopStep::Direct { .. } => {},
    }
    push_str(&mut m, ": ");
    push_str(&mut m, err);
    SshError::ConnectionFailed(m)
}

} // verus!
