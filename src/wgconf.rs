use vstd::prelude::*;
use base64::Engine;
use crate::controller::{ControllerState, MeshPeer, NodeState, SambaClientPeer, WireGuardKeyPair};
use crate::text::{
    contains_char, decimal, decimal_spec, index_from_spec, index_of_from, last_index_of,
    last_index_spec, parse_u16, parse_u16_spec, parse_u32, parse_u32_spec, starts_with_char, str_less,
    str_lt,
};

verus! {

/// A rendered WireGuard configuration, with the interface it is for and the
/// file it goes to.
#[derive(Debug, Clone)]
pub struct RenderedConfig {
    pub interface: String,
    pub path: String,
    pub contents: String,
}

/// `host:port`, with an IPv6 host put in brackets.
pub open spec fn format_endpoint_spec(host: Seq<char>, port: u16) -> Seq<char> {
    if host.contains(':') && !(host.len() > 0 && host[0] == '[') {
        seq!['['] + host + seq![']', ':'] + decimal_spec(port as nat)
    } else {
        host + seq![':'] + decimal_spec(port as nat)
    }
}

/// Writes `host:port`; a host with a ':' that is not yet in brackets (an
/// IPv6 address) is put in brackets.
pub fn format_endpoint(host: &str, port: u16) -> (r: String)
    ensures
        r@ == format_endpoint_spec(host@, port),
{
    proof {
        reveal_strlit("[");
        reveal_strlit("]:");
        reveal_strlit(":");
    }
    let p = decimal(port as u64);
    if contains_char(host, ':') && !starts_with_char(host, '[') {
        let r = String::from_str("[").concat(host).concat("]:").concat(p.as_str());
        assert(r@ =~= format_endpoint_spec(host@, port));
        r
    } else {
        let r = String::from_str(host).concat(":").concat(p.as_str());
        assert(r@ =~= format_endpoint_spec(host@, port));
        r
    }
}

/// Host and port of an endpoint: `[host]:port` for a bracketed host, else
/// split at the last ':'.
pub open spec fn split_endpoint_spec(ep: Seq<char>) -> Option<(Seq<char>, u16)> {
    let end = last_index_spec(ep, ']');
    if end >= 0 && index_from_spec(ep, ':', end) >= 0 {
        let colon = index_from_spec(ep, ':', end);
        match parse_u16_spec(ep.subrange(colon + 1, ep.len() as int)) {
            Some(port) => if end >= 1 {
                Some((ep.subrange(1, end), port))
            } else {
                None
            },
            None => None,
        }
    } else {
        let c = last_index_spec(ep, ':');
        if c >= 0 {
            match parse_u16_spec(ep.subrange(c + 1, ep.len() as int)) {
                Some(port) => Some((ep.subrange(0, c), port)),
                None => None,
            }
        } else {
            None
        }
    }
}

/// Splits an endpoint into host and port.
pub fn split_endpoint(ep: &str) -> (r: Option<(String, u16)>)
    ensures
        match r {
            Some((h, p)) => split_endpoint_spec(ep@) == Some((h@, p)),
            None => split_endpoint_spec(ep@) is None,
        },
{
    let n = ep.unicode_len();
    proof {
        crate::text::lemma_last_index_pub(ep@, ']');
        crate::text::lemma_last_index_pub(ep@, ':');
    }
    match last_index_of(ep, ']') {
        Some(end) => {
            proof {
                crate::text::lemma_index_from_pub(ep@, ':', end as int);
            }
            match index_of_from(ep, ':', end) {
                Some(colon) => {
                    let port = match parse_u16(ep.substring_char(colon + 1, n)) {
                        Some(p) => p,
                        None => {
                            return None;
                        },
                    };
                    if end == 0 {
                        return None;
                    }
                    let host = String::from_str(ep.substring_char(1, end));
                    return Some((host, port));
                },
                None => {},
            }
        },
        None => {},
    }
    match last_index_of(ep, ':') {
        Some(c) => match parse_u16(ep.substring_char(c + 1, n)) {
            Some(port) => Some((String::from_str(ep.substring_char(0, c)), port)),
            None => None,
        },
        None => None,
    }
}

/// The endpoint to dial for `peer`: its published endpoint, or else the
/// node's address and mesh port; with `override_host`, the host part is
/// replaced and the port kept.
pub open spec fn compute_endpoint_spec(
    node: Option<NodeState>,
    peer: MeshPeer,
    override_host: Option<Seq<char>>,
) -> Option<Seq<char>> {
    let base = if peer.endpoint@.len() > 0 {
        Some(peer.endpoint@)
    } else {
        match node {
            Some(n) => if n.ip is Some && n.mesh_port is Some {
                Some(format_endpoint_spec(n.ip->0@, n.mesh_port->0))
            } else {
                None
            },
            None => None,
        }
    };
    match base {
        None => None,
        Some(e) => match override_host {
            Some(h) => match split_endpoint_spec(e) {
                Some((_, port)) => Some(format_endpoint_spec(h, port)),
                None => Some(e),
            },
            None => Some(e),
        },
    }
}

pub fn compute_endpoint(node: Option<&NodeState>, peer: &MeshPeer, override_host: Option<&str>) -> (r:
    Option<String>)
    ensures
        match r {
            Some(e) => compute_endpoint_spec(
                match node {
                    Some(n) => Some(*n),
                    None => None,
                },
                *peer,
                match override_host {
                    Some(h) => Some(h@),
                    None => None,
                },
            ) == Some(e@),
            None => compute_endpoint_spec(
                match node {
                    Some(n) => Some(*n),
                    None => None,
                },
                *peer,
                match override_host {
                    Some(h) => Some(h@),
                    None => None,
                },
            ) is None,
        },
{
    let endpoint = if peer.endpoint.unicode_len() > 0 {
        peer.endpoint.clone()
    } else {
        match node {
            Some(n) => match (&n.ip, n.mesh_port) {
                (Some(ip), Some(port)) => format_endpoint(ip.as_str(), port),
                _ => {
                    return None;
                },
            },
            None => {
                return None;
            },
        }
    };
    match override_host {
        Some(host) => match split_endpoint(endpoint.as_str()) {
            Some((_, port)) => Some(format_endpoint(host, port)),
            None => Some(endpoint),
        },
        None => Some(endpoint),
    }
}

/// The lines of a Samba client's WireGuard configuration, each ended by a
/// newline.
pub open spec fn samba_client_config_spec(
    private_key: Seq<char>,
    address_cidr: Seq<char>,
    dns: Seq<char>,
    allowed_ips: Seq<char>,
    endpoint: Option<Seq<char>>,
    server_public_key: Seq<char>,
) -> Seq<char> {
    let head = "[Interface]\n"@ + "PrivateKey = "@ + private_key + "\n"@ + "Address = "@ + address_cidr
        + "\n"@ + "DNS = "@ + dns + "\n"@ + "\n"@ + "[Peer]\n"@ + "PublicKey = "@ + server_public_key
        + "\n"@ + "AllowedIPs = "@ + allowed_ips + "\n"@;
    match endpoint {
        Some(ep) => head + "Endpoint = "@ + ep + "\n"@ + "PersistentKeepalive = 25\n"@,
        None => head,
    }
}

/// Renders the WireGuard configuration handed to a Samba client.
pub fn render_samba_client_config(
    private_key: &str,
    address_cidr: &str,
    dns: &str,
    allowed_ips: &str,
    endpoint: Option<&str>,
    server_public_key: &str,
) -> (r: String)
    ensures
        r@ == samba_client_config_spec(
            private_key@,
            address_cidr@,
            dns@,
            allowed_ips@,
            match endpoint {
                Some(e) => Some(e@),
                None => None,
            },
            server_public_key@,
        ),
{
    let head = String::from_str("[Interface]\n").concat("PrivateKey = ").concat(private_key).concat(
        "\n",
    ).concat("Address = ").concat(address_cidr).concat("\n").concat("DNS = ").concat(dns).concat(
        "\n",
    ).concat("\n").concat("[Peer]\n").concat("PublicKey = ").concat(server_public_key).concat(
        "\n",
    ).concat("AllowedIPs = ").concat(allowed_ips).concat("\n");
    match endpoint {
        Some(ep) => head.concat("Endpoint = ").concat(ep).concat("\n").concat(
            "PersistentKeepalive = 25\n",
        ),
        None => head,
    }
}

pub open spec fn port_setting(v: Option<Seq<char>>) -> Option<u16> {
    match v {
        Some(s) => match parse_u32_spec(s) {
            Some(p) => Some(
                if p > 65535 {
                    65535u16
                } else {
                    p as u16
                },
            ),
            None => None,
        },
        None => None,
    }
}

/// A port setting read as a 32-bit number and capped at 65535.
pub fn parse_port_setting(v: Option<&str>) -> (r: Option<u16>)
    ensures
        r == port_setting(
            match v {
                Some(s) => Some(s@),
                None => None,
            },
        ),
{
    match v {
        Some(s) => match parse_u32(s) {
            Some(p) => Some(
                if p > 65535 {
                    65535u16
                } else {
                    p as u16
                },
            ),
            None => None,
        },
        None => None,
    }
}

/// The WireGuard port to advertise: the endpoint port setting, else the
/// external port, else the listen port, else 51820.
pub fn advertised_port(endpoint_port: Option<&str>, external_port: Option<&str>, listen_port: Option<
    &str,
>) -> (r: u16)
    ensures
        r == match port_setting(
            match endpoint_port {
                Some(s) => Some(s@),
                None => None,
            },
        ) {
            Some(p) => p,
            None => match port_setting(
                match external_port {
                    Some(s) => Some(s@),
                    None => None,
                },
            ) {
                Some(p) => p,
                None => match port_setting(
                    match listen_port {
                        Some(s) => Some(s@),
                        None => None,
                    },
                ) {
                    Some(p) => p,
                    None => 51820,
                },
            },
        },
{
    match parse_port_setting(endpoint_port) {
        Some(p) => p,
        None => match parse_port_setting(external_port) {
            Some(p) => p,
            None => match parse_port_setting(listen_port) {
                Some(p) => p,
                None => 51820,
            },
        },
    }
}

// ---------------------------------------------------------------------------
// Key pairs
// ---------------------------------------------------------------------------

/// The x25519 public key of a secret key.
pub uninterp spec fn x25519_public_of(secret: Seq<u8>) -> Seq<u8>;

/// The 64 characters of standard base64.
pub open spec fn base64_alphabet() -> Seq<char> {
    "ABCDEFGHIJKLMNOPQRSTUVWXYZabcdefghijklmnopqrstuvwxyz0123456789+/"@
}

/// Standard base64 with `=` padding: each group of three bytes becomes four
/// characters of six bits each; a final group of one or two bytes is padded.
pub open spec fn base64_spec(b: Seq<u8>) -> Seq<char>
    decreases b.len(),
{
    let a = base64_alphabet();
    if b.len() == 0 {
        Seq::empty()
    } else if b.len() == 1 {
        seq![a[(b[0] / 4) as int], a[((b[0] % 4) * 16) as int], '=', '=']
    } else if b.len() == 2 {
        seq![
            a[(b[0] / 4) as int],
            a[((b[0] % 4) * 16 + b[1] / 16) as int],
            a[((b[1] % 16) * 4) as int],
            '=',
        ]
    } else {
        seq![
            a[(b[0] / 4) as int],
            a[((b[0] % 4) * 16 + b[1] / 16) as int],
            a[((b[1] % 16) * 4 + b[2] / 64) as int],
            a[(b[2] % 64) as int],
        ] + base64_spec(b.subrange(3, b.len() as int))
    }
}

/// Relies on x25519_dalek's `PublicKey::from(&StaticSecret)`, the secret
/// built from its 32 bytes by `StaticSecret::from`: the public key depends
/// on those bytes alone.
#[verifier::external_body]
fn x25519_public(secret: &[u8]) -> (r: [u8; 32])
    requires
        secret@.len() == 32,
    ensures
        r@ == x25519_public_of(secret@),
{
    let mut bytes = [0u8; 32];
    bytes.copy_from_slice(secret);
    x25519_dalek::PublicKey::from(&x25519_dalek::StaticSecret::from(bytes)).to_bytes()
}

/// Relies on base64's `STANDARD.encode`: standard alphabet, with padding.
#[verifier::external_body]
fn base64_encode(b: &[u8]) -> (r: String)
    ensures
        r@ == base64_spec(b@),
{
    base64::engine::general_purpose::STANDARD.encode(b)
}

/// A fresh WireGuard key pair, base64 encoded: (private key, public key).
/// The private key is 32 random bytes and the public key the one that
/// belongs to it. None when no random bytes could be had.
pub fn generate_ephemeral_keypair() -> (r: Option<(String, String)>)
    ensures
        r matches Some(k) ==> exists|s: Seq<u8>|
            s.len() == 32 && k.0@ == base64_spec(s) && k.1@ == base64_spec(x25519_public_of(s)),
{
    let secret = match crate::natclass::random_bytes(32) {
        Some(s) => s,
        None => {
            return None;
        },
    };
    let public = x25519_public(secret.as_slice());
    let private_key = base64_encode(secret.as_slice());
    let public_key = base64_encode(&public);
    Some((private_key, public_key))
}

/// A fresh WireGuard key pair for `node_id`; None when no random bytes could
/// be had.
pub fn generate_keypair(node_id: &str) -> (r: Option<WireGuardKeyPair>)
    ensures
        r matches Some(k) ==> k.node_id@ == node_id@ && exists|s: Seq<u8>|
            s.len() == 32 && k.private_key@ == base64_spec(s) && k.public_key@ == base64_spec(
                x25519_public_of(s),
            ),
{
    match generate_ephemeral_keypair() {
        Some((private_key, public_key)) => Some(
            WireGuardKeyPair { node_id: String::from_str(node_id), public_key, private_key },
        ),
        None => None,
    }
}

// ---------------------------------------------------------------------------
// The controller's WireGuard configuration
// ---------------------------------------------------------------------------

/// `order` (positions into `keys`) with position `j` placed before the first
/// position whose key sorts after `keys[j]`.
pub open spec fn insert_pos(order: Seq<int>, keys: Seq<Seq<char>>, j: int) -> Seq<int>
    decreases order.len(),
{
    if order.len() == 0 {
        seq![j]
    } else if str_lt(keys[j], keys[order[0]]) {
        seq![j] + order
    } else {
        seq![order[0]] + insert_pos(order.drop_first(), keys, j)
    }
}

/// The positions of the first `n` keys in sorted order; equal keys keep
/// their order.
pub open spec fn sort_positions(keys: Seq<Seq<char>>, n: int) -> Seq<int>
    decreases n,
{
    if n <= 0 {
        Seq::empty()
    } else {
        insert_pos(sort_positions(keys, n - 1), keys, n - 1)
    }
}

/// Positions of `keys` in sorted order.
pub fn sorted_positions(keys: &Vec<String>) -> (r: Vec<usize>)
    ensures
        r@.map_values(|p: usize| p as int) == sort_positions(
            keys@.map_values(|s: String| s@),
            keys@.len() as int,
        ),
        forall|t: int| 0 <= t < r@.len() ==> #[trigger] r@[t] < keys@.len(),
{
    let ghost ks = keys@.map_values(|s: String| s@);
    let mut r: Vec<usize> = Vec::new();
    let mut j: usize = 0;
    while j < keys.len()
        invariant
            ks == keys@.map_values(|s: String| s@),
            j <= keys@.len(),
            r@.map_values(|p: usize| p as int) == sort_positions(ks, j as int),
            forall|t: int| 0 <= t < r@.len() ==> #[trigger] r@[t] < j,
        decreases keys@.len() - j,
    {
        let ghost prev = r@.map_values(|p: usize| p as int);
        let ghost before = r@;
        let mut k: usize = 0;
        assert(prev.subrange(0, prev.len() as int) =~= prev);
        assert(prev.subrange(0, 0) + insert_pos(prev, ks, j as int) =~= insert_pos(prev, ks, j as int));
        while k < r.len() && !str_less(keys[j].as_str(), keys[r[k]].as_str())
            invariant
                ks == keys@.map_values(|s: String| s@),
                j < keys@.len(),
                r@ == before,
                prev == before.map_values(|p: usize| p as int),
                forall|t: int| 0 <= t < r@.len() ==> #[trigger] r@[t] < j,
                k <= r@.len(),
                insert_pos(prev, ks, j as int) == prev.subrange(0, k as int) + insert_pos(
                    prev.subrange(k as int, prev.len() as int),
                    ks,
                    j as int,
                ),
            decreases r@.len() - k,
        {
            let ghost rest = prev.subrange(k as int, prev.len() as int);
            assert(rest[0] == r@[k as int] as int);
            assert(rest.drop_first() =~= prev.subrange(k + 1, prev.len() as int));
            assert(prev.subrange(0, k + 1) =~= prev.subrange(0, k as int) + seq![rest[0]]);
            k = k + 1;
        }
        let ghost rest = prev.subrange(k as int, prev.len() as int);
        proof {
            if k < r@.len() {
                assert(rest[0] == r@[k as int] as int);
            }
        }
        r.insert(k, j);
        assert(r@.map_values(|p: usize| p as int) =~= prev.subrange(0, k as int) + insert_pos(
            rest,
            ks,
            j as int,
        )) by {
            if k < before.len() {
                assert(str_lt(ks[j as int], ks[rest[0]]));
            }
        }
        assert forall|t: int| 0 <= t < r@.len() implies #[trigger] r@[t] < j + 1 by {
            if t < k {
                assert(r@[t] == before[t]);
            } else if t > k {
                assert(r@[t] == before[t - 1]);
            }
        }
        j = j + 1;
    }
    r
}

/// `s` without repeats of an element right after itself.
pub open spec fn dedup_spec(s: Seq<Seq<char>>) -> Seq<Seq<char>>
    decreases s.len(),
{
    if s.len() <= 1 {
        s
    } else {
        let d = dedup_spec(s.drop_last());
        if s.last() == s[s.len() - 2] {
            d
        } else {
            d.push(s.last())
        }
    }
}

pub open spec fn addr_lines(addrs: Seq<Seq<char>>) -> Seq<char>
    decreases addrs.len(),
{
    if addrs.len() == 0 {
        Seq::empty()
    } else {
        addr_lines(addrs.drop_last()) + "Address = "@ + addrs.last() + "\n"@
    }
}

/// Where the controller dials a peer: with an override host, that host at
/// the peer's port (or the endpoint as published when it has no port);
/// otherwise the published endpoint, if any.
pub open spec fn peer_endpoint(ep: Seq<char>, override_host: Option<Seq<char>>) -> Option<Seq<char>> {
    match override_host {
        Some(h) => Some(
            match split_endpoint_spec(ep) {
                Some((_, port)) => format_endpoint_spec(h, port),
                None => ep,
            },
        ),
        None => if ep.len() == 0 {
            None
        } else {
            Some(ep)
        },
    }
}

pub open spec fn peer_block(
    p: MeshPeer,
    controller_node_id: Seq<char>,
    override_host: Option<Seq<char>>,
    allowed: Seq<char>,
) -> Seq<char> {
    if p.node_id@ == controller_node_id {
        Seq::empty()
    } else {
        "\n"@ + "[Peer]\n"@ + "PublicKey = "@ + p.public_key@ + "\n"@ + "AllowedIPs = "@ + allowed
            + "\n"@ + match peer_endpoint(p.endpoint@, override_host) {
            Some(e) => "Endpoint = "@ + e + "\n"@ + "PersistentKeepalive = 25\n"@,
            None => Seq::empty(),
        }
    }
}

pub open spec fn peer_blocks(
    ps: Seq<MeshPeer>,
    controller_node_id: Seq<char>,
    override_host: Option<Seq<char>>,
    allowed: Seq<char>,
) -> Seq<char>
    decreases ps.len(),
{
    if ps.len() == 0 {
        Seq::empty()
    } else {
        peer_blocks(ps.drop_last(), controller_node_id, override_host, allowed) + peer_block(
            ps.last(),
            controller_node_id,
            override_host,
            allowed,
        )
    }
}

pub open spec fn client_blocks(cs: Seq<SambaClientPeer>) -> Seq<char>
    decreases cs.len(),
{
    if cs.len() == 0 {
        Seq::empty()
    } else {
        client_blocks(cs.drop_last()) + "\n"@ + "[Peer]\n"@ + "PublicKey = "@ + cs.last().public_key@
            + "\n"@ + "AllowedIPs = "@ + cs.last().address@ + "\n"@
    }
}

/// The controller's WireGuard configuration text.
pub open spec fn controller_config_spec(
    private_key: Seq<char>,
    listen_port: u16,
    addrs: Seq<Seq<char>>,
    peers: Seq<MeshPeer>,
    controller_node_id: Seq<char>,
    override_host: Option<Seq<char>>,
    allowed: Seq<char>,
    clients: Seq<SambaClientPeer>,
) -> Seq<char> {
    "[Interface]\n"@ + "PrivateKey = "@ + private_key + "\n"@ + "ListenPort = "@ + decimal_spec(
        listen_port as nat,
    ) + "\n"@ + addr_lines(addrs) + peer_blocks(peers, controller_node_id, override_host, allowed)
        + client_blocks(clients)
}

pub open spec fn pick<T>(v: Seq<T>, order: Seq<int>) -> Seq<T> {
    order.map_values(|p: int| v[p])
}

/// The listen port: the setting, else the controller node's mesh port, else
/// 51820.
pub open spec fn listen_port_spec(st: &ControllerState, id: Seq<char>, setting: Option<u16>) -> u16 {
    match setting {
        Some(p) => p,
        None => if st.nodes.contains(id) && st.nodes.at(id).mesh_port is Some {
            st.nodes.at(id).mesh_port->0
        } else {
            51820
        },
    }
}

fn peer_endpoint_of(ep: &String, override_host: Option<&str>) -> (r: Option<String>)
    ensures
        opt_seq(r) == peer_endpoint(
            ep@,
            match override_host {
                Some(h) => Some(h@),
                None => None,
            },
        ),
{
    match override_host {
        Some(h) => match split_endpoint(ep.as_str()) {
            Some((_, port)) => Some(format_endpoint(h, port)),
            None => Some(ep.clone()),
        },
        None => if ep.unicode_len() == 0 {
            None
        } else {
            Some(ep.clone())
        },
    }
}

pub open spec fn opt_seq(o: Option<String>) -> Option<Seq<char>> {
    match o {
        Some(s) => Some(s@),
        None => None,
    }
}

fn peer_ids(t: &crate::table::Table<MeshPeer>) -> (r: Vec<String>)
    requires
        t.wf(),
    ensures
        r@.len() == t.values().len(),
        r@.map_values(|s: String| s@) == t.values().map_values(|p: MeshPeer| p.node_id@),
{
    proof {
        t.lemma_wf();
    }
    let mut ids: Vec<String> = Vec::new();
    let mut k: usize = 0;
    while k < t.len()
        invariant
            t.wf(),
            t.values().len() == t.order().len(),
            k <= t.values().len(),
            ids@.len() == k,
            forall|j: int| 0 <= j < k ==> (#[trigger] ids@[j])@ == t.values()[j].node_id@,
        decreases t.values().len() - k,
    {
        let p = t.value_at(k);
        ids.push(p.node_id.clone());
        k = k + 1;
    }
    assert(ids@.map_values(|s: String| s@) =~= t.values().map_values(|p: MeshPeer| p.node_id@));
    ids
}

fn client_addresses(t: &crate::table::Table<SambaClientPeer>) -> (r: Vec<String>)
    requires
        t.wf(),
    ensures
        r@.len() == t.values().len(),
        r@.map_values(|s: String| s@) == t.values().map_values(|c: SambaClientPeer| c.address@),
{
    proof {
        t.lemma_wf();
    }
    let mut v: Vec<String> = Vec::new();
    let mut k: usize = 0;
    while k < t.len()
        invariant
            t.wf(),
            t.values().len() == t.order().len(),
            k <= t.values().len(),
            v@.len() == k,
            forall|j: int| 0 <= j < k ==> (#[trigger] v@[j])@ == t.values()[j].address@,
        decreases t.values().len() - k,
    {
        let c = t.value_at(k);
        v.push(c.address.clone());
        k = k + 1;
    }
    assert(v@.map_values(|s: String| s@) =~= t.values().map_values(|c: SambaClientPeer| c.address@));
    v
}

pub open spec fn sorted_addresses(addresses: Seq<String>) -> Seq<Seq<char>> {
    dedup_spec(
        pick(
            addresses.map_values(|s: String| s@),
            sort_positions(addresses.map_values(|s: String| s@), addresses.len() as int),
        ),
    )
}

/// `Address = ` lines for the addresses, sorted, each once.
fn address_lines(addresses: &Vec<String>) -> (r: String)
    ensures
        r@ == addr_lines(sorted_addresses(addresses@)),
{
    let ghost aks = addresses@.map_values(|s: String| s@);
    let apos = sorted_positions(addresses);
    let ghost sorted_addrs = pick(aks, sort_positions(aks, addresses@.len() as int));
    let ghost mut kept: Seq<Seq<char>> = Seq::empty();
    let mut out = String::new();
    let mut i: usize = 0;
    while i < apos.len()
        invariant
            aks == addresses@.map_values(|s: String| s@),
            apos@.map_values(|p: usize| p as int) == sort_positions(aks, addresses@.len() as int),
            forall|t: int| 0 <= t < apos@.len() ==> #[trigger] apos@[t] < addresses@.len(),
            sorted_addrs == pick(aks, sort_positions(aks, addresses@.len() as int)),
            sorted_addrs.len() == apos@.len(),
            i <= apos@.len(),
            kept == dedup_spec(sorted_addrs.subrange(0, i as int)),
            out@ == addr_lines(kept),
        decreases apos@.len() - i,
    {
        let ghost pre = sorted_addrs.subrange(0, i + 1);
        assert(pre.drop_last() =~= sorted_addrs.subrange(0, i as int));
        assert(sorted_addrs[i as int] == addresses@[apos@[i as int] as int]@);
        let a = &addresses[apos[i]];
        let repeat = if i > 0 {
            assert(sorted_addrs[i - 1] == addresses@[apos@[i - 1] as int]@);
            addresses[apos[i - 1]].eq(a)
        } else {
            false
        };
        if !repeat {
            out = out.concat("Address = ").concat(a.as_str()).concat("\n");
            proof {
                kept = kept.push(a@);
            }
        }
        assert(kept == dedup_spec(pre));
        assert(out@ =~= addr_lines(kept)) by {
            if !repeat {
                assert(kept.drop_last() == dedup_spec(sorted_addrs.subrange(0, i as int)));
            }
        }
        i = i + 1;
    }
    assert(sorted_addrs.subrange(0, apos@.len() as int) =~= sorted_addrs);
    out
}

pub open spec fn sorted_peers(t: crate::table::Table<MeshPeer>) -> Seq<MeshPeer> {
    pick(
        t.values(),
        sort_positions(t.values().map_values(|p: MeshPeer| p.node_id@), t.values().len() as int),
    )
}

/// A `[Peer]` section for each mesh peer but the controller, by node id.
fn peer_sections(
    t: &crate::table::Table<MeshPeer>,
    controller_node_id: &str,
    peer_override: Option<&str>,
    default_allowed: &str,
) -> (r: String)
    requires
        t.wf(),
    ensures
        r@ == peer_blocks(
            sorted_peers(*t),
            controller_node_id@,
            match peer_override {
                Some(h) => Some(h@),
                None => None,
            },
            default_allowed@,
        ),
{
    proof {
        t.lemma_wf();
    }
    let ids = peer_ids(t);
    let ppos = sorted_positions(&ids);
    let ghost over = match peer_override {
        Some(h) => Some(h@),
        None => None,
    };
    let ghost sp = sorted_peers(*t);
    let me = String::from_str(controller_node_id);
    let mut out = String::new();
    let mut i: usize = 0;
    while i < ppos.len()
        invariant
            t.wf(),
            t.values().len() == t.order().len(),
            ids@.len() == t.values().len(),
            ids@.map_values(|s: String| s@) == t.values().map_values(|p: MeshPeer| p.node_id@),
            ppos@.map_values(|p: usize| p as int) == sort_positions(
                ids@.map_values(|s: String| s@),
                ids@.len() as int,
            ),
            forall|k: int| 0 <= k < ppos@.len() ==> #[trigger] ppos@[k] < ids@.len(),
            sp == sorted_peers(*t),
            me@ == controller_node_id@,
            over == (match peer_override {
                Some(h) => Some(h@),
                None => None,
            }),
            i <= ppos@.len(),
            out@ == peer_blocks(sp.subrange(0, i as int), controller_node_id@, over, default_allowed@),
        decreases ppos@.len() - i,
    {
        let p = t.value_at(ppos[i]);
        assert(sp[i as int] == *p);
        assert(sp.subrange(0, i + 1).drop_last() =~= sp.subrange(0, i as int));
        if !p.node_id.eq(&me) {
            let ep = peer_endpoint_of(&p.endpoint, peer_override);
            out = out.concat("\n").concat("[Peer]\n").concat("PublicKey = ").concat(
                p.public_key.as_str(),
            ).concat("\n").concat("AllowedIPs = ").concat(default_allowed).concat("\n");
            match ep {
                Some(e) => {
                    out = out.concat("Endpoint = ").concat(e.as_str()).concat("\n").concat(
                        "PersistentKeepalive = 25\n",
                    );
                },
                None => {},
            }
        }
        i = i + 1;
        assert(out@ =~= peer_blocks(sp.subrange(0, i as int), controller_node_id@, over, default_allowed@));
    }
    assert(sp.subrange(0, ppos@.len() as int) =~= sp);
    out
}

pub open spec fn sorted_clients(t: crate::table::Table<SambaClientPeer>) -> Seq<SambaClientPeer> {
    pick(
        t.values(),
        sort_positions(t.values().map_values(|c: SambaClientPeer| c.address@), t.values().len() as int),
    )
}

/// A `[Peer]` section for each Samba client, by address.
fn client_sections(t: &crate::table::Table<SambaClientPeer>) -> (r: String)
    requires
        t.wf(),
    ensures
        r@ == client_blocks(sorted_clients(*t)),
{
    proof {
        t.lemma_wf();
    }
    let addrs = client_addresses(t);
    let cpos = sorted_positions(&addrs);
    let ghost sc = sorted_clients(*t);
    let mut out = String::new();
    let mut i: usize = 0;
    while i < cpos.len()
        invariant
            t.wf(),
            t.values().len() == t.order().len(),
            addrs@.len() == t.values().len(),
            addrs@.map_values(|s: String| s@) == t.values().map_values(|c: SambaClientPeer| c.address@),
            cpos@.map_values(|p: usize| p as int) == sort_positions(
                addrs@.map_values(|s: String| s@),
                addrs@.len() as int,
            ),
            forall|k: int| 0 <= k < cpos@.len() ==> #[trigger] cpos@[k] < addrs@.len(),
            sc == sorted_clients(*t),
            i <= cpos@.len(),
            out@ == client_blocks(sc.subrange(0, i as int)),
        decreases cpos@.len() - i,
    {
        let c = t.value_at(cpos[i]);
        assert(sc[i as int] == *c);
        assert(sc.subrange(0, i + 1).drop_last() =~= sc.subrange(0, i as int));
        out = out.concat("\n").concat("[Peer]\n").concat("PublicKey = ").concat(c.public_key.as_str()).concat(
            "\n",
        ).concat("AllowedIPs = ").concat(c.address.as_str()).concat("\n");
        i = i + 1;
        assert(out@ =~= client_blocks(sc.subrange(0, i as int)));
    }
    assert(sc.subrange(0, cpos@.len() as int) =~= sc);
    out
}

/// Renders the controller's WireGuard configuration: its interface (key,
/// listen port, the given addresses sorted without repeats), then every
/// mesh peer but itself sorted by node id, then the Samba clients sorted by
/// address. None while the controller has no key pair.
pub fn render(
    st: &ControllerState,
    controller_node_id: &str,
    interface: String,
    path: String,
    peer_override: Option<&str>,
    default_allowed: &str,
    listen_port_setting: Option<u16>,
    addresses: &Vec<String>,
) -> (r: Option<RenderedConfig>)
    requires
        st.wf(),
    ensures
        !st.wg_keys.contains(controller_node_id@) ==> r is None,
        st.wg_keys.contains(controller_node_id@) ==> (r matches Some(c) && c.interface == interface
            && c.path == path && c.contents@ == controller_config_spec(
            st.wg_keys.at(controller_node_id@).private_key@,
            listen_port_spec(st, controller_node_id@, listen_port_setting),
            sorted_addresses(addresses@),
            sorted_peers(st.mesh_peers),
            controller_node_id@,
            match peer_override {
                Some(h) => Some(h@),
                None => None,
            },
            default_allowed@,
            sorted_clients(st.samba_clients),
        )),
{
    let private_key = match st.wg_keys.get(controller_node_id) {
        Some(k) => k.private_key.clone(),
        None => {
            return None;
        },
    };
    let listen_port: u16 = match listen_port_setting {
        Some(p) => p,
        None => match st.nodes.get(controller_node_id) {
            Some(n) => match n.mesh_port {
                Some(p) => p,
                None => 51820,
            },
            None => 51820,
        },
    };
    let a = address_lines(addresses);
    let p = peer_sections(&st.mesh_peers, controller_node_id, peer_override, default_allowed);
    let c = client_sections(&st.samba_clients);
    let out = String::from_str("[Interface]\n").concat("PrivateKey = ").concat(private_key.as_str()).concat(
        "\n",
    ).concat("ListenPort = ").concat(decimal(listen_port as u64).as_str()).concat("\n").concat(
        a.as_str(),
    ).concat(p.as_str()).concat(c.as_str());
    Some(RenderedConfig { interface, path, contents: out })
}

} // verus!
