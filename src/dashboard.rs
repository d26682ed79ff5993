use vstd::prelude::*;
use crate::controller::{
    copy_opt, AgentRole, ControllerState, DriveState, MeshPeer, NodeState, SambaClientConfig,
    SambaClientPeer, SambaGatewayMetadata, WireGuardKeyPair,
};
use crate::table::{is_put, Table};
use crate::text::{contains_char, decimal, decimal_spec, ends_with_char, hex, hex_spec};
use crate::wgconf::{
    generate_ephemeral_keypair, opt_seq, render_samba_client_config, samba_client_config_spec,
};

verus! {

/// The address of pool slot `octet`: `prefix:hex` for an IPv6 prefix,
/// `prefix.decimal` otherwise.
pub open spec fn samba_addr(prefix: Seq<char>, octet: u8) -> Seq<char> {
    if prefix.contains(':') {
        (if prefix.len() > 0 && prefix.last() == ':' {
            prefix
        } else {
            prefix.push(':')
        }) + hex_spec(octet as nat)
    } else {
        prefix + seq!['.'] + decimal_spec(octet as nat)
    }
}

pub open spec fn samba_cidr(addr: Seq<char>) -> Seq<char> {
    if addr.contains(':') {
        addr + "/128"@
    } else {
        addr + "/32"@
    }
}

/// The pool cursor after `cur`, wrapping from the end back to the start.
pub open spec fn next_octet(cur: u8, start: u8, end: u8) -> u8 {
    if cur >= end {
        start
    } else {
        (cur + 1) as u8
    }
}

/// Walks `k` slots of the pool from `cur`: the first address no client
/// holds, and where the cursor stops.
pub open spec fn alloc_walk(
    clients: Table<SambaClientPeer>,
    prefix: Seq<char>,
    start: u8,
    end: u8,
    cur: u8,
    k: nat,
) -> (Option<Seq<char>>, u8)
    decreases k,
{
    if k == 0 {
        (None, cur)
    } else {
        let c = samba_cidr(samba_addr(prefix, cur));
        let nxt = next_octet(cur, start, end);
        if !clients.contains(c) {
            (Some(c), nxt)
        } else {
            alloc_walk(clients, prefix, start, end, nxt, (k - 1) as nat)
        }
    }
}

pub open spec fn pool_size(start: u8, end: u8) -> nat {
    if start <= end {
        (end - start + 1) as nat
    } else {
        0
    }
}

fn samba_address(prefix: &String, octet: u8) -> (r: String)
    ensures
        r@ == samba_addr(prefix@, octet),
{
    proof {
        reveal_strlit(":");
        reveal_strlit(".");
    }
    if contains_char(prefix.as_str(), ':') {
        let base = if ends_with_char(prefix.as_str(), ':') {
            prefix.clone()
        } else {
            let b = prefix.clone().concat(":");
            assert(b@ =~= prefix@.push(':'));
            b
        };
        base.concat(hex(octet as u64).as_str())
    } else {
        let r = prefix.clone().concat(".").concat(decimal(octet as u64).as_str());
        assert(r@ =~= prefix@ + seq!['.'] + decimal_spec(octet as nat));
        r
    }
}

/// Hands out the next free Samba client address of the pool, as a CIDR,
/// moving the pool cursor; none when every slot is taken.
pub fn alloc_samba_client_address(st: &mut ControllerState) -> (r: Option<String>)
    requires
        old(st).wf(),
    ensures
        final(st).wf(),
        ({
            let w = alloc_walk(
                old(st).samba_clients,
                old(st).samba_pool_prefix@,
                old(st).samba_pool_start,
                old(st).samba_pool_end,
                old(st).samba_next_octet,
                pool_size(old(st).samba_pool_start, old(st).samba_pool_end),
            );
            &&& match r {
                Some(c) => w.0 == Some(c@),
                None => w.0 is None,
            }
            &&& final(st).samba_next_octet == w.1
        }),
        final(st).samba_clients == old(st).samba_clients,
        final(st).samba_pool_prefix == old(st).samba_pool_prefix,
        final(st).nodes == old(st).nodes,
        final(st).wg_keys == old(st).wg_keys,
        final(st).mesh_peers == old(st).mesh_peers,
        final(st).samba_allowed_ips == old(st).samba_allowed_ips,
        final(st).samba_client_dns == old(st).samba_client_dns,
{
    let start = st.samba_pool_start;
    let end = st.samba_pool_end;
    if start > end {
        return None;
    }
    let total: u16 = end as u16 - start as u16 + 1;
    let mut i: u16 = 0;
    while i < total
        invariant
            st.wf(),
            start == st.samba_pool_start,
            end == st.samba_pool_end,
            start <= end,
            total == pool_size(start, end),
            i <= total,
            st.samba_clients == old(st).samba_clients,
            st.samba_pool_prefix == old(st).samba_pool_prefix,
            st.nodes == old(st).nodes,
            st.wg_keys == old(st).wg_keys,
            st.mesh_peers == old(st).mesh_peers,
            st.samba_allowed_ips == old(st).samba_allowed_ips,
            st.samba_client_dns == old(st).samba_client_dns,
            st.samba_pool_start == old(st).samba_pool_start,
            st.samba_pool_end == old(st).samba_pool_end,
            alloc_walk(
                old(st).samba_clients,
                old(st).samba_pool_prefix@,
                start,
                end,
                old(st).samba_next_octet,
                total as nat,
            ) == alloc_walk(
                st.samba_clients,
                st.samba_pool_prefix@,
                start,
                end,
                st.samba_next_octet,
                (total - i) as nat,
            ),
        decreases total - i,
    {
        let octet = st.samba_next_octet;
        st.samba_next_octet = if octet >= end {
            start
        } else {
            octet + 1
        };
        let addr = samba_address(&st.samba_pool_prefix, octet);
        proof {
            reveal_strlit("/128");
            reveal_strlit("/32");
        }
        let cidr = if contains_char(addr.as_str(), ':') {
            addr.concat("/128")
        } else {
            addr.concat("/32")
        };
        if st.samba_clients.get(cidr.as_str()).is_none() {
            return Some(cidr);
        }
        i = i + 1;
    }
    None
}

/// The last of the peers with a non-empty endpoint and the highest score,
/// or -1 when no peer has an endpoint.
pub open spec fn best_endpoint_peer(peers: Seq<MeshPeer>) -> int
    decreases peers.len(),
{
    if peers.len() == 0 {
        -1
    } else {
        let b = best_endpoint_peer(peers.drop_last());
        let p = peers.last();
        if p.endpoint@.len() > 0 && (b < 0 || p.score >= peers[b].score) {
            peers.len() - 1
        } else {
            b
        }
    }
}

proof fn lemma_best_endpoint_peer(peers: Seq<MeshPeer>)
    ensures
        -1 <= best_endpoint_peer(peers) < peers.len(),
    decreases peers.len(),
{
    if peers.len() > 0 {
        lemma_best_endpoint_peer(peers.drop_last());
    }
}

pub open spec fn controller_endpoint_spec(
    st: &ControllerState,
    local_agent_endpoint: Option<String>,
    samba_endpoint: Option<String>,
    endpoint_override: Option<String>,
) -> Option<String> {
    if local_agent_endpoint is Some {
        local_agent_endpoint
    } else if samba_endpoint is Some {
        samba_endpoint
    } else if endpoint_override is Some {
        endpoint_override
    } else if best_endpoint_peer(st.mesh_peers.values()) >= 0 {
        Some(st.mesh_peers.values()[best_endpoint_peer(st.mesh_peers.values())].endpoint)
    } else {
        None
    }
}

/// The endpoint Samba clients should dial: the first configured override,
/// else the endpoint of the best-scoring peer that published one.
pub fn controller_endpoint(
    st: &ControllerState,
    local_agent_endpoint: Option<String>,
    samba_endpoint: Option<String>,
    endpoint_override: Option<String>,
) -> (r: Option<String>)
    requires
        st.wf(),
    ensures
        r == controller_endpoint_spec(st, local_agent_endpoint, samba_endpoint, endpoint_override),
{
    if local_agent_endpoint.is_some() {
        return local_agent_endpoint;
    }
    if samba_endpoint.is_some() {
        return samba_endpoint;
    }
    if endpoint_override.is_some() {
        return endpoint_override;
    }
    proof {
        st.mesh_peers.lemma_wf();
    }
    let mut best: Option<usize> = None;
    let mut i: usize = 0;
    while i < st.mesh_peers.len()
        invariant
            st.wf(),
            i <= st.mesh_peers.values().len(),
            match best {
                Some(b) => best_endpoint_peer(st.mesh_peers.values().subrange(0, i as int)) == b,
                None => best_endpoint_peer(st.mesh_peers.values().subrange(0, i as int)) == -1,
            },
        decreases st.mesh_peers.values().len() - i,
    {
        proof {
            st.mesh_peers.lemma_wf();
        }
        let ghost vs = st.mesh_peers.values();
        assert(vs.subrange(0, i + 1).drop_last() =~= vs.subrange(0, i as int));
        assert(vs.subrange(0, i + 1).last() == vs[i as int]);
        let p = st.mesh_peers.value_at(i);
        if p.endpoint.unicode_len() > 0 {
            match best {
                None => {
                    best = Some(i);
                },
                Some(b) => {
                    proof {
                        lemma_best_endpoint_peer(vs.subrange(0, i as int));
                    }
                    assert(vs.subrange(0, i + 1)[b as int] == vs[b as int]);
                    if p.score >= st.mesh_peers.value_at(b).score {
                        best = Some(i);
                    }
                },
            }
        }
        i = i + 1;
    }
    proof {
        st.mesh_peers.lemma_wf();
        assert(st.mesh_peers.values().subrange(0, st.mesh_peers.values().len() as int)
            =~= st.mesh_peers.values());
        lemma_best_endpoint_peer(st.mesh_peers.values());
    }
    match best {
        Some(b) => Some(st.mesh_peers.value_at(b).endpoint.clone()),
        None => None,
    }
}

/// What Samba clients need to join: the endpoint, the allowed IPs, the DNS
/// server and the controller's public key.
pub fn samba_metadata(
    st: &ControllerState,
    controller_node_id: &str,
    local_agent_endpoint: Option<String>,
    samba_endpoint: Option<String>,
    endpoint_override: Option<String>,
) -> (r: SambaGatewayMetadata)
    requires
        st.wf(),
    ensures
        r.allowed_ips == st.samba_allowed_ips,
        r.dns == st.samba_client_dns,
        r.controller_public_key == (if st.wg_keys.contains(controller_node_id@) {
            Some(st.wg_keys.at(controller_node_id@).public_key)
        } else {
            None::<String>
        }),
        r.endpoint == controller_endpoint_spec(st, local_agent_endpoint, samba_endpoint, endpoint_override),
{
    let key = match st.wg_keys.get(controller_node_id) {
        Some(k) => Some(k.public_key.clone()),
        None => None,
    };
    SambaGatewayMetadata {
        endpoint: controller_endpoint(st, local_agent_endpoint, samba_endpoint, endpoint_override),
        allowed_ips: st.samba_allowed_ips.clone(),
        dns: st.samba_client_dns.clone(),
        controller_public_key: key,
    }
}

/// Why no Samba client configuration could be made.
#[derive(Debug, Clone, Copy, PartialEq, Eq, Structural)]
pub enum SambaError {
    /// The controller has no key pair yet (412).
    NoControllerKey,
    /// Every pool address is taken (503).
    PoolExhausted,
    /// No random bytes could be had for the client's key pair (500).
    KeyGeneration,
}

/// Allocates a Samba client: an address from the pool and a fresh key pair,
/// recorded among the clients, and a configuration that points the client at
/// the controller.
pub fn generate_samba_client_config(
    st: &mut ControllerState,
    controller_node_id: &str,
    local_agent_endpoint: Option<String>,
    samba_endpoint: Option<String>,
    endpoint_override: Option<String>,
) -> (r: Result<SambaClientConfig, SambaError>)
    requires
        old(st).wf(),
    ensures
        final(st).wf(),
        !old(st).wg_keys.contains(controller_node_id@) ==> r == Err::<SambaClientConfig, SambaError>(
            SambaError::NoControllerKey,
        ),
        old(st).wg_keys.contains(controller_node_id@) ==> match r {
            Ok(c) => {
                &&& final(st).samba_clients.contains(c.address@)
                &&& !old(st).samba_clients.contains(c.address@)
                &&& final(st).samba_clients.at(c.address@).public_key == c.public_key
                &&& exists|private_key: Seq<char>|
                    c.config@ == samba_client_config_spec(
                        private_key,
                        c.address@,
                        old(st).samba_client_dns@,
                        old(st).samba_allowed_ips@,
                        opt_seq(
                            controller_endpoint_spec(
                                old(st),
                                local_agent_endpoint,
                                samba_endpoint,
                                endpoint_override,
                            ),
                        ),
                        old(st).wg_keys.at(controller_node_id@).public_key@,
                    )
                &&& c.address@ == alloc_walk(
                    old(st).samba_clients,
                    old(st).samba_pool_prefix@,
                    old(st).samba_pool_start,
                    old(st).samba_pool_end,
                    old(st).samba_next_octet,
                    pool_size(old(st).samba_pool_start, old(st).samba_pool_end),
                ).0->0
            },
            Err(e) => (e == SambaError::PoolExhausted) == (alloc_walk(
                old(st).samba_clients,
                old(st).samba_pool_prefix@,
                old(st).samba_pool_start,
                old(st).samba_pool_end,
                old(st).samba_next_octet,
                pool_size(old(st).samba_pool_start, old(st).samba_pool_end),
            ).0 is None) && (e == SambaError::PoolExhausted || e == SambaError::KeyGeneration)
                && final(st).samba_clients == old(st).samba_clients,
        },
{
    let server_key = match st.wg_keys.get(controller_node_id) {
        Some(k) => k.public_key.clone(),
        None => {
            return Err(SambaError::NoControllerKey);
        },
    };
    let address = match alloc_samba_client_address(st) {
        Some(a) => a,
        None => {
            return Err(SambaError::PoolExhausted);
        },
    };
    proof {
        lemma_alloc_walk_free(
            old(st).samba_clients,
            old(st).samba_pool_prefix@,
            old(st).samba_pool_start,
            old(st).samba_pool_end,
            old(st).samba_next_octet,
            pool_size(old(st).samba_pool_start, old(st).samba_pool_end),
        );
    }
    let (client_private, client_public) = match generate_ephemeral_keypair() {
        Some(k) => k,
        None => {
            return Err(SambaError::KeyGeneration);
        },
    };
    st.samba_clients.insert(
        address.clone(),
        SambaClientPeer { public_key: client_public.clone(), address: address.clone() },
    );
    assert(st.samba_clients.contains(address@));
    let endpoint = controller_endpoint(st, local_agent_endpoint, samba_endpoint, endpoint_override);
    assert(st.mesh_peers == old(st).mesh_peers);
    let config = render_samba_client_config(
        &client_private,
        &address,
        &st.samba_client_dns,
        &st.samba_allowed_ips,
        match &endpoint {
            Some(e) => Some(e.as_str()),
            None => None,
        },
        &server_key,
    );
    assert(opt_seq(endpoint) == opt_seq(
        controller_endpoint_spec(old(st), local_agent_endpoint, samba_endpoint, endpoint_override),
    ));
    assert(config@ == samba_client_config_spec(
        client_private@,
        address@,
        old(st).samba_client_dns@,
        old(st).samba_allowed_ips@,
        opt_seq(controller_endpoint_spec(old(st), local_agent_endpoint, samba_endpoint, endpoint_override)),
        old(st).wg_keys.at(controller_node_id@).public_key@,
    ));
    Ok(SambaClientConfig { config, address, public_key: client_public })
}

proof fn lemma_alloc_walk_free(
    clients: Table<SambaClientPeer>,
    prefix: Seq<char>,
    start: u8,
    end: u8,
    cur: u8,
    k: nat,
)
    ensures
        alloc_walk(clients, prefix, start, end, cur, k).0 matches Some(c) ==> !clients.contains(c),
    decreases k,
{
    if k > 0 {
        lemma_alloc_walk_free(
            clients,
            prefix,
            start,
            end,
            next_octet(cur, start, end),
            (k - 1) as nat,
        );
    }
}

/// Stores a key pair managed from the dashboard, and copies it into the
/// node's record when the node is known.
pub fn upsert_wg_keys(st: &mut ControllerState, body: WireGuardKeyPair)
    requires
        old(st).wf(),
    ensures
        final(st).wf(),
        is_put(&old(st).wg_keys, &final(st).wg_keys, body.node_id@, body),
        old(st).nodes.contains(body.node_id@) ==> {
            let n = old(st).nodes.at(body.node_id@);
            &&& final(st).nodes.contains(body.node_id@)
            &&& final(st).nodes.at(body.node_id@).mesh_public_key == Some(body.public_key)
            &&& final(st).nodes.at(body.node_id@).mesh_private_key == Some(body.private_key)
            &&& final(st).nodes.at(body.node_id@).node_id == n.node_id
            &&& final(st).nodes.at(body.node_id@).role == n.role
        },
        !old(st).nodes.contains(body.node_id@) ==> final(st).nodes == old(st).nodes,
{
    let id = body.node_id.clone();
    let public = body.public_key.clone();
    let private = body.private_key.clone();
    st.wg_keys.insert(id.clone(), body);
    match st.nodes.get(id.as_str()) {
        Some(n) => {
            let updated = NodeState {
                node_id: n.node_id.clone(),
                hostname: n.hostname.clone(),
                nickname: n.nickname.clone(),
                drives: duplicate_drives(&n.drives),
                role: n.role,
                ip: copy_opt(&n.ip),
                mesh_port: n.mesh_port,
                mesh_endpoint: copy_opt(&n.mesh_endpoint),
                mesh_public_key: Some(public),
                mesh_private_key: Some(private),
                mesh_score: n.mesh_score,
                mesh_nat_type: copy_opt(&n.mesh_nat_type),
            };
            st.nodes.insert(id, updated);
            assert(st.nodes.contains(body.node_id@));
        },
        None => {},
    }
}

impl DriveState {
    pub fn duplicate(&self) -> (r: DriveState)
        ensures
            r == *self,
    {
        DriveState {
            id: self.id.clone(),
            path: self.path.clone(),
            used_bytes: self.used_bytes,
            allocated_bytes: self.allocated_bytes,
        }
    }
}

pub fn duplicate_drives(v: &Vec<DriveState>) -> (r: Vec<DriveState>)
    ensures
        r@ == v@,
{
    let mut r: Vec<DriveState> = Vec::new();
    let mut i: usize = 0;
    while i < v.len()
        invariant
            i <= v@.len(),
            r@ == v@.subrange(0, i as int),
        decreases v@.len() - i,
    {
        r.push(v[i].duplicate());
        i = i + 1;
        assert(r@ =~= v@.subrange(0, i as int));
    }
    assert(v@.subrange(0, v@.len() as int) =~= v@);
    r
}

/// A node as the dashboard lists it: the published mesh record fills in
/// the mesh fields, and a stored key pair fills in the keys.
pub open spec fn listed_node(st: &ControllerState, n: NodeState) -> NodeState {
    let id = n.node_id@;
    let a = if st.mesh_peers.contains(id) {
        let p = st.mesh_peers.at(id);
        NodeState {
            mesh_endpoint: Some(p.endpoint),
            mesh_public_key: Some(p.public_key),
            mesh_score: Some(p.score),
            mesh_nat_type: p.nat_type,
            ..n
        }
    } else {
        n
    };
    if st.wg_keys.contains(id) {
        let k = st.wg_keys.at(id);
        NodeState {
            mesh_public_key: if a.mesh_public_key is None {
                Some(k.public_key)
            } else {
                a.mesh_public_key
            },
            mesh_private_key: Some(k.private_key),
            ..a
        }
    } else {
        a
    }
}

pub open spec fn listed_nodes(st: &ControllerState, ns: Seq<NodeState>) -> Seq<NodeState>
    decreases ns.len(),
{
    if ns.len() == 0 {
        Seq::empty()
    } else {
        let prev = listed_nodes(st, ns.drop_last());
        if ns.last().role == AgentRole::Pure {
            prev.push(listed_node(st, ns.last()))
        } else {
            prev
        }
    }
}

/// `a` and `b` hold the same values, their drive lists compared by content.
pub open spec fn same_node(a: NodeState, b: NodeState) -> bool {
    &&& a.drives@ == b.drives@
    &&& a == NodeState { drives: a.drives, ..b }
}

pub open spec fn same_nodes(a: Seq<NodeState>, b: Seq<NodeState>) -> bool {
    &&& a.len() == b.len()
    &&& forall|i: int| 0 <= i < a.len() ==> #[trigger] same_node(a[i], b[i])
}

/// The storage nodes, with their mesh fields and keys filled in.
pub fn list_nodes(st: &ControllerState) -> (r: Vec<NodeState>)
    requires
        st.wf(),
    ensures
        same_nodes(r@, listed_nodes(st, st.nodes.values())),
{
    proof {
        st.nodes.lemma_wf();
    }
    let mut r: Vec<NodeState> = Vec::new();
    let mut i: usize = 0;
    while i < st.nodes.len()
        invariant
            st.wf(),
            i <= st.nodes.values().len(),
            st.nodes.values().len() == st.nodes.order().len(),
            same_nodes(r@, listed_nodes(st, st.nodes.values().subrange(0, i as int))),
        decreases st.nodes.values().len() - i,
    {
        let ghost vs = st.nodes.values();
        assert(vs.subrange(0, i + 1).drop_last() =~= vs.subrange(0, i as int));
        let n = st.nodes.value_at(i);
        assert(vs.subrange(0, i + 1).last() == *n);
        if n.role == AgentRole::Pure {
            let mut out = NodeState {
                node_id: n.node_id.clone(),
                hostname: n.hostname.clone(),
                nickname: n.nickname.clone(),
                drives: duplicate_drives(&n.drives),
                role: n.role,
                ip: copy_opt(&n.ip),
                mesh_port: n.mesh_port,
                mesh_endpoint: copy_opt(&n.mesh_endpoint),
                mesh_public_key: copy_opt(&n.mesh_public_key),
                mesh_private_key: copy_opt(&n.mesh_private_key),
                mesh_score: n.mesh_score,
                mesh_nat_type: copy_opt(&n.mesh_nat_type),
            };
            assert(out.drives@ == n.drives@);
            match st.mesh_peers.get(n.node_id.as_str()) {
                Some(p) => {
                    out.mesh_endpoint = Some(p.endpoint.clone());
                    out.mesh_public_key = Some(p.public_key.clone());
                    out.mesh_score = Some(p.score);
                    out.mesh_nat_type = copy_opt(&p.nat_type);
                },
                None => {},
            }
            match st.wg_keys.get(n.node_id.as_str()) {
                Some(k) => {
                    if out.mesh_public_key.is_none() {
                        out.mesh_public_key = Some(k.public_key.clone());
                    }
                    out.mesh_private_key = Some(k.private_key.clone());
                },
                None => {},
            }
            let ghost before = r@;
            r.push(out);
            assert(same_node(out, listed_node(st, *n)));
            assert forall|j: int| 0 <= j < r@.len() implies #[trigger] same_node(
                r@[j],
                listed_nodes(st, st.nodes.values().subrange(0, i + 1))[j],
            ) by {
                if j < before.len() {
                    assert(r@[j] == before[j]);
                }
            }
        }
        i = i + 1;
    }
    assert(st.nodes.values().subrange(0, st.nodes.values().len() as int) =~= st.nodes.values());
    r
}

} // verus!
