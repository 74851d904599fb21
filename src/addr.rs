//! Listening addresses, and the plan that links a run of local nodes into a ring.
use vstd::prelude::*;
use vstd::string::*;

use crate::text::{decimal, push_decimal, trim, trim_text};

verus! {

/// The host that a bare port number is given.
pub open spec fn default_host() -> Seq<char> {
    "127.0.0.1"@
}

/// An address as given, when it names a host; else a bare port on the default host.
pub open spec fn normalize_spec(raw: Seq<char>) -> Seq<char> {
    if raw.contains(':') {
        raw
    } else {
        default_host() + ":"@ + raw
    }
}

/// `host:port`.
pub open spec fn host_port_spec(host: Seq<char>, port: u16) -> Seq<char> {
    host + ":"@ + decimal(port as nat)
}

/// The address to listen on: an explicit address first, then a port, then the
/// environment's port, and the default address last.
pub open spec fn resolve_spec(
    addr: Option<Seq<char>>,
    port: Option<u16>,
    env_port: Option<Seq<char>>,
) -> Seq<char> {
    match addr {
        Some(a) => normalize_spec(a),
        None => match port {
            Some(p) => host_port_spec(default_host(), p),
            None => match env_port {
                Some(e) => normalize_spec(e),
                None => "127.0.0.1:9000"@,
            },
        },
    }
}

/// Whether a console line asks to stop: `quit` in any case, white space around.
pub open spec fn is_quit_spec(line: Seq<char>) -> bool {
    let t = trim(line);
    &&& t.len() == 4
    &&& (t[0] == 'q' || t[0] == 'Q')
    &&& (t[1] == 'u' || t[1] == 'U')
    &&& (t[2] == 'i' || t[2] == 'I')
    &&& (t[3] == 't' || t[3] == 'T')
}

fn has_colon(s: &str) -> (r: bool)
    ensures
        r == s@.contains(':'),
{
    let n = s.unicode_len();
    let mut i: usize = 0;
    while i < n
        invariant
            n == s@.len(),
            i <= n,
            forall|j: int| 0 <= j < i ==> s@[j] != ':',
        decreases n - i,
    {
        if s.get_char(i) == ':' {
            return true;
        }
        i = i + 1;
    }
    false
}

/// Accepts `7001` or `127.0.0.1:7001`: a bare port gets the default host.
pub fn normalize_addr(raw: String) -> (r: String)
    ensures
        r@ == normalize_spec(raw@),
{
    if has_colon(raw.as_str()) {
        raw
    } else {
        let mut out = String::new();
        out.append("127.0.0.1:");
        out.append(raw.as_str());
        proof {
            reveal_strlit("127.0.0.1:");
            reveal_strlit("127.0.0.1");
            reveal_strlit(":");
            assert(out@ =~= normalize_spec(raw@));
        }
        out
    }
}

/// `host:port`.
pub fn host_port(host: &str, port: u16) -> (r: String)
    ensures
        r@ == host_port_spec(host@, port),
{
    let mut out = String::new();
    out.append(host);
    out.append(":");
    push_decimal(&mut out, port as u64);
    proof {
        assert(out@ =~= host_port_spec(host@, port));
    }
    out
}

/// The address to listen on, from an explicit address, a port, or the
/// environment's port, in that order of preference.
pub fn resolve_listen_addr(addr: Option<String>, port: Option<u16>, env_port: Option<String>) -> (r:
    String)
    ensures
        r@ == resolve_spec(
            match addr {
                Some(a) => Some(a@),
                None => None,
            },
            port,
            match env_port {
                Some(e) => Some(e@),
                None => None,
            },
        ),
{
    if let Some(a) = addr {
        return normalize_addr(a);
    }
    if let Some(p) = port {
        return host_port("127.0.0.1", p);
    }
    if let Some(e) = env_port {
        return normalize_addr(e);
    }
    "127.0.0.1:9000".to_owned()
}

/// Whether a console line asks to stop.
pub fn is_quit_line(line: &str) -> (r: bool)
    ensures
        r == is_quit_spec(line@),
{
    let t = trim_text(line);
    if t.unicode_len() != 4 {
        return false;
    }
    let a = t.get_char(0);
    let b = t.get_char(1);
    let c = t.get_char(2);
    let d = t.get_char(3);
    (a == 'q' || a == 'Q') && (b == 'u' || b == 'U') && (c == 'i' || c == 'I') && (d == 't' || d
        == 'T')
}

/// The port of the `i`-th of `nodes` nodes numbered from `base_port`, and the
/// port of the node after it, the last one linked back to the first.
pub open spec fn link_spec(base_port: u16, nodes: u16, i: int) -> (u16, u16) {
    ((base_port + i) as u16, (base_port + (i + 1) % (nodes as int)) as u16)
}

/// The links that make `nodes` nodes on consecutive ports from `base_port`
/// into one ring: each port with the port of its successor.
pub fn ring_links(nodes: u16, base_port: u16) -> (r: Vec<(u16, u16)>)
    requires
        base_port + nodes <= u16::MAX + 1,
    ensures
        r@.len() == nodes,
        forall|i: int| 0 <= i < nodes ==> #[trigger] r@[i] == link_spec(base_port, nodes, i),
{
    let mut links: Vec<(u16, u16)> = Vec::new();
    let mut i: u16 = 0;
    while i < nodes
        invariant
            i <= nodes,
            base_port + nodes <= u16::MAX + 1,
            links@.len() == i,
            forall|j: int| 0 <= j < i ==> #[trigger] links@[j] == link_spec(base_port, nodes, j),
        decreases nodes - i,
    {
        let next = if i + 1 == nodes {
            0
        } else {
            i + 1
        };
        proof {
            assert((i + 1) % (nodes as int) == next) by (nonlinear_arith)
                requires
                    next == (if i + 1 == nodes { 0 } else { i + 1 }),
                    i < nodes,
            ;
        }
        links.push((base_port + i, base_port + next));
        i = i + 1;
    }
    links
}

} // verus!
