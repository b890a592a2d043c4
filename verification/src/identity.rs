//! SSH identity normalization, used to name quick-connect link scopes
//! (`link:<identity>`); saved sessions use `session:<id>`. The same link
//! always produces the same identity, so link scopes stay stable across
//! reconnects and credential choices.

use vstd::prelude::*;
use crate::ssh::{AuthParams, JumpHostParams};
use crate::text::{
    append_chars, chars_of, lowercase_of, to_lowercase, dec, push_chars, push_dec, push_str, string_of, trim, trim_chars,
};

verus! {

// ---------------------------------------------------------------------------
// Outside calls
// ---------------------------------------------------------------------------

/// The SHA-256 digest of a byte string.
pub uninterp spec fn sha256_of(bytes: Seq<u8>) -> Seq<u8>;

/// Calls `sha2::Sha256::digest`. Its output is 32 bytes (the digest's
/// documented output size).
#[verifier::external_body]
fn sha256(bytes: &[u8]) -> (d: Vec<u8>)
    ensures
        d@ == sha256_of(bytes@),
        d@.len() == 32,
{
    <sha2::Sha256 as sha2::Digest>::digest(bytes).to_vec()
}

// ---------------------------------------------------------------------------
// Scopes
// ---------------------------------------------------------------------------

/// Owning scope for a connection: `session:<id>` when started from a saved
/// session, else `link:<identity>`.
pub fn agent_scope(session_id: Option<&str>, identity: String) -> (s: String)
    ensures
        s@ == match session_id {
            Some(id) => "session:"@ + id@,
            None => "link:"@ + identity@,
        },
{
    match session_id {
        Some(id) => {
            let mut s = String::from_str("session:");
            push_str(&mut s, id);
            s
        },
        None => {
            let mut s = String::from_str("link:");
            push_str(&mut s, identity.as_str());
            s
        },
    }
}

// ---------------------------------------------------------------------------
// Chain description
// ---------------------------------------------------------------------------

/// Auth category labels for the chain fingerprint. The labels are a
/// stability contract: renaming one changes link identities.
#[derive(PartialEq, Eq, Structural, Clone, Copy)]
pub enum AuthKind {
    Key,
    Password,
    Agent,
}

pub open spec fn auth_label(k: AuthKind) -> Seq<char> {
    match k {
        AuthKind::Key => "key"@,
        AuthKind::Password => "password"@,
        AuthKind::Agent => "agent"@,
    }
}

impl AuthKind {
    /// The fingerprint label: `key`, `password` or `agent`.
    pub fn label(&self) -> (s: &'static str)
        ensures
            s@ == auth_label(*self),
    {
        match self {
            AuthKind::Key => "key",
            AuthKind::Password => "password",
            AuthKind::Agent => "agent",
        }
    }

    /// Classifies runtime auth params by the cascade's precedence: a key
    /// wins over a password, which wins over the agent.
    pub fn of_params(auth: &AuthParams) -> (k: AuthKind)
        ensures
            k == (if auth.key is Some {
                AuthKind::Key
            } else if auth.password is Some {
                AuthKind::Password
            } else {
                AuthKind::Agent
            }),
    {
        if auth.key.is_some() {
            AuthKind::Key
        } else if auth.password.is_some() {
            AuthKind::Password
        } else {
            AuthKind::Agent
        }
    }
}

/// One hop of a ProxyJump chain, reduced to the fields that identify the
/// link (credentials are left out of the fingerprint).
pub struct ChainHop {
    pub host: String,
    pub port: u16,
    pub username: String,
    pub auth_kind: AuthKind,
}

impl ChainHop {
    /// The identifying part of a jump host: trimmed, lowercased host;
    /// trimmed user name; the kind of auth, not its secrets.
    pub fn from_jump(p: &JumpHostParams) -> (h: ChainHop)
        ensures
            h.host@ == lowercase_of(trim(p.host@)),
            h.port == p.port,
            h.username@ == trim(p.username@),
            h.auth_kind == (if p.auth.key is Some {
                AuthKind::Key
            } else if p.auth.password is Some {
                AuthKind::Password
            } else {
                AuthKind::Agent
            }),
    {
        let host_chars = chars_of(p.host.as_str());
        let host_trimmed = string_of(trim_chars(&host_chars).as_slice());
        let user_chars = chars_of(p.username.as_str());
        ChainHop {
            host: to_lowercase(host_trimmed.as_str()),
            port: p.port,
            username: string_of(trim_chars(&user_chars).as_slice()),
            auth_kind: AuthKind::of_params(&p.auth),
        }
    }
}

/// Proxy settings of a connection.
pub struct ProxyConfig {
    pub proxy_type: String,
    pub host: String,
    pub port: u16,
    pub username: Option<String>,
    pub password: Option<String>,
}

/// Proxy config reduced to identity-relevant fields (no password).
pub struct ChainProxy {
    pub proxy_type: String,
    pub host: String,
    pub port: u16,
    pub username: Option<String>,
}

/// The identity-relevant view of a proxy: type, trimmed lowercased host,
/// port and user name.
pub open spec fn chain_proxy_of(p: ProxyConfig) -> (Seq<char>, Seq<char>, u16, Option<Seq<char>>) {
    (
        p.proxy_type@,
        lowercase_of(trim(p.host@)),
        p.port,
        match p.username {
            Some(u) => Some(u@),
            None => None,
        },
    )
}

impl ChainProxy {
    /// Drops the password and normalizes the host.
    pub fn from_config(p: &ProxyConfig) -> (c: ChainProxy)
        ensures
            (c.proxy_type@, c.host@, c.port, match c.username {
                Some(u) => Some(u@),
                None => None,
            }) == chain_proxy_of(*p),
    {
        let host_chars = chars_of(p.host.as_str());
        let host_trimmed = string_of(trim_chars(&host_chars).as_slice());
        let username = match &p.username {
            Some(u) => Some(String::from_str(u.as_str())),
            None => None,
        };
        ChainProxy {
            proxy_type: String::from_str(p.proxy_type.as_str()),
            host: to_lowercase(host_trimmed.as_str()),
            port: p.port,
            username,
        }
    }
}

// ---------------------------------------------------------------------------
// Canonical JSON of the chain
// ---------------------------------------------------------------------------

/// The JSON escape of one character, as serde_json writes it: `"` and `\`
/// and the control characters below U+0020 are escaped, the short forms
/// where JSON has them and `\u00XX` with lowercase hex otherwise.
pub open spec fn json_escape_char(c: char) -> Seq<char> {
    if c == '"' {
        seq!['\\', '"']
    } else if c == '\\' {
        seq!['\\', '\\']
    } else if c == '\x08' {
        seq!['\\', 'b']
    } else if c == '\t' {
        seq!['\\', 't']
    } else if c == '\n' {
        seq!['\\', 'n']
    } else if c == '\x0c' {
        seq!['\\', 'f']
    } else if c == '\r' {
        seq!['\\', 'r']
    } else if (c as u32) < 0x20 {
        seq!['\\', 'u', '0', '0', hex_digit((c as u32 / 16) as nat), hex_digit((c as u32 % 16) as nat)]
    } else {
        seq![c]
    }
}

/// Lowercase hexadecimal digit of `d < 16`.
pub open spec fn hex_digit(d: nat) -> char {
    if d < 10 {
        ((d + 48) as u8) as char
    } else {
        ((d + 87) as u8) as char
    }
}

/// The escaped contents of a JSON string.
pub open spec fn json_escape(s: Seq<char>) -> Seq<char>
    decreases s.len(),
{
    if s.len() == 0 {
        Seq::<char>::empty()
    } else {
        json_escape(s.drop_last()) + json_escape_char(s.last())
    }
}

/// A JSON string literal.
pub open spec fn json_str(s: Seq<char>) -> Seq<char> {
    seq!['"'] + json_escape(s) + seq!['"']
}

/// A JSON string literal, or `null`.
pub open spec fn json_opt_str(s: Option<Seq<char>>) -> Seq<char> {
    match s {
        Some(v) => json_str(v),
        None => "null"@,
    }
}

/// Compact JSON of a hop, fields in declaration order.
pub open spec fn hop_json(h: ChainHop) -> Seq<char> {
    "{\"host\":"@ + json_str(h.host@) + ",\"port\":"@ + dec(h.port as nat) + ",\"username\":"@
        + json_str(h.username@) + ",\"auth_kind\":\""@ + auth_label(h.auth_kind) + "\"}"@
}

/// The hops' JSON objects separated by commas.
pub open spec fn hops_json(hops: Seq<ChainHop>) -> Seq<char>
    decreases hops.len(),
{
    if hops.len() == 0 {
        Seq::<char>::empty()
    } else if hops.len() == 1 {
        hop_json(hops[0])
    } else {
        hops_json(hops.drop_last()) + ","@ + hop_json(hops.last())
    }
}

/// Compact JSON of the proxy's identity fields.
pub open spec fn proxy_json(p: (Seq<char>, Seq<char>, u16, Option<Seq<char>>)) -> Seq<char> {
    "{\"proxy_type\":"@ + json_str(p.0) + ",\"host\":"@ + json_str(p.1) + ",\"port\":"@ + dec(
        p.2 as nat,
    ) + ",\"username\":"@ + json_opt_str(p.3) + "}"@
}

/// Canonical serialization of the connection chain that is hashed:
/// `{"jump_chain":[…]|null,"proxy":{…}|null}`.
pub open spec fn fingerprint_json(jump_chain: Option<Seq<ChainHop>>, proxy: Option<ProxyConfig>) -> Seq<
    char,
> {
    "{\"jump_chain\":"@ + match jump_chain {
        Some(h) => "["@ + hops_json(h) + "]"@,
        None => "null"@,
    } + ",\"proxy\":"@ + match proxy {
        Some(p) => proxy_json(chain_proxy_of(p)),
        None => "null"@,
    } + "}"@
}

fn hex_digit_exec(d: u8) -> (c: char)
    requires
        d < 16,
    ensures
        c == hex_digit(d as nat),
{
    if d < 10 {
        (d + 48) as char
    } else {
        (d + 87) as char
    }
}

fn push_json_str(out: &mut String, s: &str)
    ensures
        final(out)@ == old(out)@ + json_str(s@),
{
    let v = chars_of(s);
    out.push('"');
    let ghost base = out@;
    let mut i: usize = 0;
    while i < v.len()
        invariant
            i <= v.len(),
            v@ == s@,
            out@ == base + json_escape(v@.take(i as int)),
        decreases v.len() - i,
    {
        let c = v[i];
        proof {
            assert(v@.take(i + 1).drop_last() =~= v@.take(i as int));
            assert(v@.take(i + 1).last() == c);
        }
        let ghost before = out@;
        if c == '"' {
            out.push('\\');
            out.push('"');
        } else if c == '\\' {
            out.push('\\');
            out.push('\\');
        } else if c == '\x08' {
            out.push('\\');
            out.push('b');
        } else if c == '\t' {
            out.push('\\');
            out.push('t');
        } else if c == '\n' {
            out.push('\\');
            out.push('n');
        } else if c == '\x0c' {
            out.push('\\');
            out.push('f');
        } else if c == '\r' {
            out.push('\\');
            out.push('r');
        } else if (c as u32) < 0x20 {
            let b = c as u32;
            out.push('\\');
            out.push('u');
            out.push('0');
            out.push('0');
            out.push(hex_digit_exec((b / 16) as u8));
            out.push(hex_digit_exec((b % 16) as u8));
        } else {
            out.push(c);
        }
        assert(out@ =~= before + json_escape_char(c));
        i = i + 1;
        assert(out@ =~= base + json_escape(v@.take(i as int)));
    }
    assert(v@.take(v.len() as int) =~= v@);
    out.push('"');
    assert(out@ =~= old(out)@ + json_str(s@));
}

fn push_hop_json(out: &mut String, h: &ChainHop)
    ensures
        final(out)@ == old(out)@ + hop_json(*h),
{
    push_str(out, "{\"host\":");
    push_json_str(out, h.host.as_str());
    push_str(out, ",\"port\":");
    push_dec(out, h.port as u64);
    push_str(out, ",\"username\":");
    push_json_str(out, h.username.as_str());
    push_str(out, ",\"auth_kind\":\"");
    push_str(out, h.auth_kind.label());
    push_str(out, "\"}");
    assert(final(out)@ =~= old(out)@ + hop_json(*h));
}

/// The canonical JSON text of a connection chain, as it is hashed.
#[verifier::spinoff_prover]
#[verifier::rlimit(40)]
pub fn chain_fingerprint_json(jump_chain: Option<&[ChainHop]>, proxy: Option<&ProxyConfig>) -> (s:
    String)
    ensures
        s@ == fingerprint_json(
            match jump_chain {
                Some(c) => Some(c@),
                None => None,
            },
            match proxy {
                Some(p) => Some(*p),
                None => None,
            },
        ),
{
    let mut out = String::from_str("{\"jump_chain\":");
    let ghost head = out@;
    match jump_chain {
        Some(hops) => {
            push_str(&mut out, "[");
            let ghost base = out@;
            let mut i: usize = 0;
            while i < hops.len()
                invariant
                    i <= hops@.len(),
                    out@ == base + hops_json(hops@.take(i as int)),
                decreases hops@.len() - i,
            {
                let ghost before = out@;
                if i > 0 {
                    push_str(&mut out, ",");
                }
                push_hop_json(&mut out, &hops[i]);
                i = i + 1;
                proof {
                    let t = hops@.take(i as int);
                    assert(t.drop_last() =~= hops@.take(i - 1));
                    assert(t.last() == hops@[i - 1]);
                    if i == 1 {
                        assert(out@ =~= base + hops_json(t));
                    } else {
                        assert(out@ =~= base + hops_json(t));
                    }
                }
            }
            assert(hops@.take(hops@.len() as int) =~= hops@);
            push_str(&mut out, "]");
        },
        None => {
            push_str(&mut out, "null");
        },
    }
    push_str(&mut out, ",\"proxy\":");
    match proxy {
        Some(p) => {
            let cp = ChainProxy::from_config(p);
            push_str(&mut out, "{\"proxy_type\":");
            push_json_str(&mut out, cp.proxy_type.as_str());
            push_str(&mut out, ",\"host\":");
            push_json_str(&mut out, cp.host.as_str());
            push_str(&mut out, ",\"port\":");
            push_dec(&mut out, cp.port as u64);
            push_str(&mut out, ",\"username\":");
            match &cp.username {
                Some(u) => push_json_str(&mut out, u.as_str()),
                None => push_str(&mut out, "null"),
            }
            push_str(&mut out, "}");
        },
        None => {
            push_str(&mut out, "null");
        },
    }
    push_str(&mut out, "}");
    assert(out@ =~= fingerprint_json(
        match jump_chain {
            Some(c) => Some(c@),
            None => None,
        },
        match proxy {
            Some(p) => Some(*p),
            None => None,
        },
    ));
    out
}

// ---------------------------------------------------------------------------
// Identity
// ---------------------------------------------------------------------------

/// Lowercase hex of a byte string, two digits per byte.
pub open spec fn hex_of(bytes: Seq<u8>) -> Seq<char>
    decreases bytes.len(),
{
    if bytes.len() == 0 {
        Seq::<char>::empty()
    } else {
        hex_of(bytes.drop_last()) + seq![
            hex_digit((bytes.last() / 16) as nat),
            hex_digit((bytes.last() % 16) as nat),
        ]
    }
}

proof fn lemma_hex_len(bytes: Seq<u8>)
    ensures
        hex_of(bytes).len() == 2 * bytes.len(),
    decreases bytes.len(),
{
    if bytes.len() > 0 {
        lemma_hex_len(bytes.drop_last());
    }
}

/// Lowercase hex encoding, `{:02x}` per byte.
pub fn hex_encode(bytes: &[u8]) -> (s: String)
    ensures
        s@ == hex_of(bytes@),
{
    let mut s = String::new();
    let mut i: usize = 0;
    while i < bytes.len()
        invariant
            i <= bytes@.len(),
            s@ == hex_of(bytes@.take(i as int)),
        decreases bytes@.len() - i,
    {
        let b = bytes[i];
        s.push(hex_digit_exec(b / 16));
        s.push(hex_digit_exec(b % 16));
        i = i + 1;
        proof {
            let t = bytes@.take(i as int);
            assert(t.drop_last() =~= bytes@.take(i - 1));
            assert(t.last() == b);
            assert(s@ =~= hex_of(t));
        }
    }
    assert(bytes@.take(bytes@.len() as int) =~= bytes@);
    s
}

/// The connection goes through a jump chain or a proxy.
pub open spec fn has_chain(jump_chain: Option<Seq<ChainHop>>, proxy: Option<ProxyConfig>) -> bool {
    (jump_chain matches Some(c) && c.len() > 0) || proxy is Some
}

/// First 8 hex digits of the SHA-256 of the chain's canonical JSON, for a
/// connection that goes through a jump chain or a proxy.
pub open spec fn chain_hash(jump_chain: Option<Seq<ChainHop>>, proxy: Option<ProxyConfig>) -> Option<
    Seq<char>,
> {
    if has_chain(jump_chain, proxy) {
        Some(hex_of(sha256_of(vstd::utf8::encode_utf8(fingerprint_json(jump_chain, proxy)))).take(8))
    } else {
        None
    }
}

fn chain_hash_exec(jump_chain: Option<&[ChainHop]>, proxy: Option<&ProxyConfig>) -> (r: Option<
    String,
>)
    ensures
        match r {
            Some(h) => chain_hash(
                match jump_chain {
                    Some(c) => Some(c@),
                    None => None,
                },
                match proxy {
                    Some(p) => Some(*p),
                    None => None,
                },
            ) == Some(h@),
            None => chain_hash(
                match jump_chain {
                    Some(c) => Some(c@),
                    None => None,
                },
                match proxy {
                    Some(p) => Some(*p),
                    None => None,
                },
            ) is None,
        },
{
    let chained = match jump_chain {
        Some(c) => c.len() > 0,
        None => false,
    };
    if !chained && proxy.is_none() {
        return None;
    }
    let json = chain_fingerprint_json(jump_chain, proxy);
    let digest = sha256(json.as_str().as_bytes());
    let hex = hex_encode(digest.as_slice());
    proof {
        lemma_hex_len(digest@);
    }
    let hv = chars_of(hex.as_str());
    let mut short = String::new();
    let mut i: usize = 0;
    while i < 8
        invariant
            i <= 8,
            hv@.len() == 64,
            short@ == hv@.take(i as int),
        decreases 8 - i,
    {
        short.push(hv[i]);
        i = i + 1;
        assert(short@ =~= hv@.take(i as int));
    }
    Some(short)
}

/// `host` trimmed and lowercased; an IPv6 literal (a `:` and no leading
/// `[`) is bracketed so that `addr:port` stays unambiguous.
pub open spec fn normalized_host(host: Seq<char>) -> Seq<char> {
    let h = lowercase_of(trim(host));
    if h.contains(':') && !(h.len() > 0 && h[0] == '[') {
        seq!['['] + strip_trailing_brackets(strip_leading_brackets(h)) + seq![']']
    } else {
        h
    }
}

/// `str::trim_start_matches('[')`.
pub open spec fn strip_leading_brackets(s: Seq<char>) -> Seq<char>
    decreases s.len(),
{
    if s.len() > 0 && s[0] == '[' {
        strip_leading_brackets(s.skip(1))
    } else {
        s
    }
}

/// `str::trim_end_matches(']')`.
pub open spec fn strip_trailing_brackets(s: Seq<char>) -> Seq<char>
    decreases s.len(),
{
    if s.len() > 0 && s.last() == ']' {
        strip_trailing_brackets(s.drop_last())
    } else {
        s
    }
}

/// Trims and lowercases a host; brackets an IPv6 literal.
pub fn normalize_host(host: &str) -> (r: String)
    ensures
        r@ == normalized_host(host@),
{
    let hc = chars_of(host);
    let trimmed = string_of(trim_chars(&hc).as_slice());
    let lower = to_lowercase(trimmed.as_str());
    let h = chars_of(lower.as_str());
    let mut has_colon = false;
    let mut i: usize = 0;
    while i < h.len()
        invariant
            i <= h@.len(),
            has_colon == h@.take(i as int).contains(':'),
        decreases h@.len() - i,
    {
        proof {
            assert(h@.take(i + 1) =~= h@.take(i as int).push(h@[i as int]));
        }
        if h[i] == ':' {
            has_colon = true;
            assert(h@.take(i + 1)[i as int] == ':');
        }
        i = i + 1;
    }
    assert(h@.take(h@.len() as int) =~= h@);
    if has_colon && !(h.len() > 0 && h[0] == '[') {
        let mut start: usize = 0;
        assert(h@.skip(0) =~= h@);
        while start < h.len() && h[start] == '['
            invariant
                start <= h@.len(),
                strip_leading_brackets(h@) == strip_leading_brackets(h@.skip(start as int)),
            decreases h@.len() - start,
        {
            assert(h@.skip(start as int).skip(1) =~= h@.skip(start + 1));
            start = start + 1;
        }
        let mut end: usize = h.len();
        assert(h@.skip(start as int) =~= h@.subrange(start as int, end as int));
        while end > start && h[end - 1] == ']'
            invariant
                start <= end <= h@.len(),
                strip_trailing_brackets(strip_leading_brackets(h@)) == strip_trailing_brackets(
                    h@.subrange(start as int, end as int),
                ),
            decreases end,
        {
            assert(h@.subrange(start as int, end as int).drop_last() =~= h@.subrange(
                start as int,
                end - 1,
            ));
            end = end - 1;
        }
        let mut r = String::new();
        r.push('[');
        let mut k: usize = start;
        assert(r@ =~= seq!['['] + h@.subrange(start as int, k as int));
        while k < end
            invariant
                start <= k <= end <= h@.len(),
                r@ == seq!['['] + h@.subrange(start as int, k as int),
            decreases end - k,
        {
            r.push(h[k]);
            k = k + 1;
            assert(r@ =~= seq!['['] + h@.subrange(start as int, k as int));
        }
        r.push(']');
        assert(r@ =~= normalized_host(host@));
        r
    } else {
        lower
    }
}

/// The identity of a connection: `user@host:port`, with `#via=<hash>`
/// when it goes through a jump chain or a proxy.
pub open spec fn identity_of(
    username: Seq<char>,
    host: Seq<char>,
    port: u16,
    jump_chain: Option<Seq<ChainHop>>,
    proxy: Option<ProxyConfig>,
) -> Seq<char> {
    let base = trim(username) + seq!['@'] + normalized_host(host) + seq![':'] + dec(port as nat);
    match chain_hash(jump_chain, proxy) {
        Some(h) => base + "#via="@ + h,
        None => base,
    }
}

/// Compute the normalized identity for a connection.
pub fn compute_identity(
    username: &str,
    host: &str,
    port: u16,
    jump_chain: Option<&[ChainHop]>,
    proxy: Option<&ProxyConfig>,
) -> (id: String)
    ensures
        id@ == identity_of(
            username@,
            host@,
            port,
            match jump_chain {
                Some(c) => Some(c@),
                None => None,
            },
            match proxy {
                Some(p) => Some(*p),
                None => None,
            },
        ),
{
    let h = normalize_host(host);
    let uc = chars_of(username);
    let mut out = string_of(trim_chars(&uc).as_slice());
    out.push('@');
    push_str(&mut out, h.as_str());
    out.push(':');
    push_dec(&mut out, port as u64);
    let ghost base = out@;
    match chain_hash_exec(jump_chain, proxy) {
        Some(hash) => {
            push_str(&mut out, "#via=");
            push_str(&mut out, hash.as_str());
        },
        None => {},
    }
    out
}

// ---------------------------------------------------------------------------
// Laws
// ---------------------------------------------------------------------------

/// A proxy's password never reaches the identity: two proxy settings that
/// differ only in their passwords give the same identity.
pub proof fn lemma_identity_ignores_proxy_password(
    username: Seq<char>,
    host: Seq<char>,
    port: u16,
    jump_chain: Option<Seq<ChainHop>>,
    p1: ProxyConfig,
    p2: ProxyConfig,
)
    requires
        p1.proxy_type@ == p2.proxy_type@,
        p1.host@ == p2.host@,
        p1.port == p2.port,
        match (p1.username, p2.username) {
            (Some(a), Some(b)) => a@ == b@,
            (None, None) => true,
            _ => false,
        },
    ensures
        identity_of(username, host, port, jump_chain, Some(p1)) == identity_of(
            username,
            host,
            port,
            jump_chain,
            Some(p2),
        ),
{
    assert(chain_proxy_of(p1) == chain_proxy_of(p2));
    assert(fingerprint_json(jump_chain, Some(p1)) == fingerprint_json(jump_chain, Some(p2)));
}

/// The `#via=` hash is present exactly when the connection goes through a
/// non-empty jump chain or a proxy; a direct connection's identity is
/// `user@host:port`.
pub proof fn lemma_via_iff_chained(
    username: Seq<char>,
    host: Seq<char>,
    port: u16,
    jump_chain: Option<Seq<ChainHop>>,
    proxy: Option<ProxyConfig>,
)
    ensures
        chain_hash(jump_chain, proxy) is Some <==> has_chain(jump_chain, proxy),
        !has_chain(jump_chain, proxy) ==> identity_of(username, host, port, jump_chain, proxy)
            == trim(username) + seq!['@'] + normalized_host(host) + seq![':'] + dec(port as nat),
{
}

/// Saved-session scopes and link scopes never coincide.
pub proof fn lemma_scopes_disjoint(session_id: Seq<char>, identity: Seq<char>)
    ensures
        "session:"@ + session_id != "link:"@ + identity,
{
    reveal_strlit("session:");
    reveal_strlit("link:");
    assert(("session:"@ + session_id)[0] == 's');
    assert(("link:"@ + identity)[0] == 'l');
}

} // verus!
