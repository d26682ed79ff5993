use vstd::prelude::*;
use crate::fsmeta::MetadataStore;
use crate::table::{is_put, Table};

verus! {

/// Desired allocation handed to a storage node that no operator configured:
/// 1 GiB.
pub const DEFAULT_ALLOCATION: u64 = 1_073_741_824;

#[derive(Debug, Clone, Copy, PartialEq, Eq, Structural)]
pub enum AgentRole {
    /// A storage node.
    Pure,
    /// A gateway-only (Samba) node.
    Samba,
}

/// Per-drive figures an agent reports.
#[derive(Debug, Clone)]
pub struct DriveState {
    pub id: String,
    pub path: String,
    pub used_bytes: u64,
    pub allocated_bytes: u64,
}

/// What the controller knows of a node; `mesh_score` is in millionths.
#[derive(Debug, Clone)]
pub struct NodeState {
    pub node_id: String,
    pub hostname: String,
    pub nickname: String,
    pub drives: Vec<DriveState>,
    pub role: AgentRole,
    pub ip: Option<String>,
    pub mesh_port: Option<u16>,
    pub mesh_endpoint: Option<String>,
    pub mesh_public_key: Option<String>,
    pub mesh_private_key: Option<String>,
    pub mesh_score: Option<u32>,
    pub mesh_nat_type: Option<String>,
}

/// A storage node's published overlay identity; `score` is in millionths.
#[derive(Debug, Clone)]
pub struct MeshPeer {
    pub node_id: String,
    pub endpoint: String,
    pub public_key: String,
    pub score: u32,
    pub nat_type: Option<String>,
}

/// The peers of the mesh and the elected gateway.
#[derive(Debug, Clone)]
pub struct MeshInfo {
    pub peers: Vec<MeshPeer>,
    pub gateway: Option<String>,
}

#[derive(Debug, Clone)]
pub struct WireGuardKeyPair {
    pub node_id: String,
    pub public_key: String,
    pub private_key: String,
}

/// A WireGuard configuration that an agent pushes to the controller.
#[derive(Debug, Clone)]
pub struct WireGuardPeerConfig {
    pub interface: String,
    pub path: Option<String>,
    pub config: String,
}

/// What an agent sends on each heartbeat; `mesh_score` is in millionths.
#[derive(Debug, Clone)]
pub struct HeartbeatRequest {
    pub node_id: String,
    pub hostname: String,
    pub nickname: String,
    pub role: AgentRole,
    pub ip: Option<String>,
    pub mesh_port: Option<u16>,
    pub drives: Vec<DriveState>,
    pub mesh_endpoint: Option<String>,
    pub mesh_public_key: Option<String>,
    pub mesh_private_key: Option<String>,
    pub mesh_score: Option<u32>,
    pub mesh_nat_type: Option<String>,
}

/// The controller's answer to a heartbeat.
#[derive(Debug, Clone)]
pub struct HeartbeatResponse {
    pub desired_allocation_bytes: u64,
    pub eject: bool,
    pub mesh_public_key: Option<String>,
    pub mesh_private_key: Option<String>,
}

#[derive(Debug, Clone)]
pub struct SambaHostState {
    pub node_id: String,
    pub ip: Option<String>,
    pub mesh_port: Option<u16>,
    pub status: String,
}

#[derive(Debug, Clone)]
pub struct SambaClientPeer {
    pub public_key: String,
    pub address: String,
}

#[derive(Debug, Clone)]
pub struct SambaClientConfig {
    pub config: String,
    pub address: String,
    pub public_key: String,
}

#[derive(Debug, Clone)]
pub struct SambaGatewayMetadata {
    pub endpoint: Option<String>,
    pub allowed_ips: String,
    pub dns: String,
    pub controller_public_key: Option<String>,
}

/// Everything the controller holds, each table keyed by node id (the Samba
/// clients by address).
pub struct ControllerState {
    pub nodes: Table<NodeState>,
    pub desired_allocations: Table<u64>,
    pub eject_flags: Table<bool>,
    pub mesh_peers: Table<MeshPeer>,
    pub wg_keys: Table<WireGuardKeyPair>,
    pub fs_entries: MetadataStore,
    pub samba_hosts: Table<SambaHostState>,
    pub samba_clients: Table<SambaClientPeer>,
    pub samba_next_octet: u8,
    pub samba_pool_start: u8,
    pub samba_pool_end: u8,
    pub samba_pool_prefix: String,
    pub samba_client_dns: String,
    pub samba_allowed_ips: String,
}

impl ControllerState {
    /// A fresh controller: the file tree holds the root alone, and the
    /// controller itself is listed as an online Samba host.
    pub fn new(
        samba_pool_start: u8,
        samba_pool_end: u8,
        samba_pool_prefix: String,
        samba_client_dns: String,
        samba_allowed_ips: String,
        controller_node_id: String,
        controller_ip: Option<String>,
        controller_port: Option<u16>,
    ) -> (r: ControllerState)
        ensures
            r.wf(),
            r.nodes.order().len() == 0,
            r.mesh_peers.order().len() == 0,
            r.wg_keys.order().len() == 0,
            r.fs_entries.entries.order() == seq![crate::paths::root_path()],
            r.fs_entries.entry(crate::paths::root_path())@ == crate::fsmeta::root_entry(),
            r.samba_hosts.order() == seq![controller_node_id@],
            r.samba_hosts.at(controller_node_id@).ip == controller_ip,
            r.samba_hosts.at(controller_node_id@).mesh_port == controller_port,
            r.samba_hosts.at(controller_node_id@).status@ == "online"@,
            r.samba_next_octet == samba_pool_start,
            r.samba_pool_start == samba_pool_start,
            r.samba_pool_end == samba_pool_end,
            r.samba_pool_prefix == samba_pool_prefix,
            r.samba_client_dns == samba_client_dns,
            r.samba_allowed_ips == samba_allowed_ips,
            r.samba_clients.order().len() == 0,
            r.desired_allocations.order().len() == 0,
            r.eject_flags.order().len() == 0,
    {
        let mut hosts: Table<SambaHostState> = Table::new();
        hosts.insert(
            controller_node_id.clone(),
            SambaHostState {
                node_id: controller_node_id,
                ip: controller_ip,
                mesh_port: controller_port,
                status: String::from_str("online"),
            },
        );
        assert(hosts.contains(controller_node_id@)) by {
            assert(hosts.order()[0] == controller_node_id@);
        }
        ControllerState {
            nodes: Table::new(),
            desired_allocations: Table::new(),
            eject_flags: Table::new(),
            mesh_peers: Table::new(),
            wg_keys: Table::new(),
            fs_entries: MetadataStore::new(),
            samba_hosts: hosts,
            samba_clients: Table::new(),
            samba_next_octet: samba_pool_start,
            samba_pool_start,
            samba_pool_end,
            samba_pool_prefix,
            samba_client_dns,
            samba_allowed_ips,
        }
    }

    pub open spec fn wf(&self) -> bool {
        &&& self.nodes.wf()
        &&& self.desired_allocations.wf()
        &&& self.eject_flags.wf()
        &&& self.mesh_peers.wf()
        &&& self.wg_keys.wf()
        &&& self.fs_entries.wf()
        &&& self.samba_hosts.wf()
        &&& self.samba_clients.wf()
    }
}

pub fn copy_opt(o: &Option<String>) -> (r: Option<String>)
    ensures
        r == *o,
{
    match o {
        Some(s) => Some(s.clone()),
        None => None,
    }
}

pub open spec fn public_of(k: Option<WireGuardKeyPair>) -> Option<String> {
    match k {
        Some(k) => Some(k.public_key),
        None => None,
    }
}

pub open spec fn private_of(k: Option<WireGuardKeyPair>) -> Option<String> {
    match k {
        Some(k) => Some(k.private_key),
        None => None,
    }
}

pub open spec fn or_else(a: Option<String>, b: Option<String>) -> Option<String> {
    match a {
        Some(x) => Some(x),
        None => b,
    }
}

/// The key table after a heartbeat: a node that sends both keys has them
/// stored.
pub open spec fn keys_after(s: &ControllerState, s1: &ControllerState, b: &HeartbeatRequest) -> bool {
    if b.mesh_public_key is Some && b.mesh_private_key is Some {
        is_put(
            &s.wg_keys,
            &s1.wg_keys,
            b.node_id@,
            WireGuardKeyPair {
                node_id: b.node_id,
                public_key: b.mesh_public_key->0,
                private_key: b.mesh_private_key->0,
            },
        )
    } else {
        s1.wg_keys == s.wg_keys
    }
}

/// The node's key pair once the heartbeat's keys are stored.
pub open spec fn keypair_after(s1: &ControllerState, b: &HeartbeatRequest) -> Option<WireGuardKeyPair> {
    if s1.wg_keys.contains(b.node_id@) {
        Some(s1.wg_keys.at(b.node_id@))
    } else {
        None
    }
}

/// The node record a storage heartbeat leaves behind.
pub open spec fn node_record(b: &HeartbeatRequest, kp: Option<WireGuardKeyPair>) -> NodeState {
    NodeState {
        node_id: b.node_id,
        hostname: b.hostname,
        nickname: b.nickname,
        drives: b.drives,
        role: b.role,
        ip: b.ip,
        mesh_port: b.mesh_port,
        mesh_endpoint: b.mesh_endpoint,
        mesh_public_key: or_else(b.mesh_public_key, public_of(kp)),
        mesh_private_key: or_else(b.mesh_private_key, private_of(kp)),
        mesh_score: b.mesh_score,
        mesh_nat_type: b.mesh_nat_type,
    }
}

/// Whether a heartbeat publishes the node as a mesh peer.
pub open spec fn publishes_peer(b: &HeartbeatRequest) -> bool {
    b.role == AgentRole::Pure && b.mesh_endpoint is Some && b.mesh_public_key is Some
        && b.mesh_score is Some
}

pub open spec fn peer_record(b: &HeartbeatRequest) -> MeshPeer {
    MeshPeer {
        node_id: b.node_id,
        endpoint: b.mesh_endpoint->0,
        public_key: b.mesh_public_key->0,
        score: b.mesh_score->0,
        nat_type: b.mesh_nat_type,
    }
}

/// What a heartbeat does to the state and answers.
pub open spec fn heartbeat_post(
    s: &ControllerState,
    s1: &ControllerState,
    b: &HeartbeatRequest,
    r: HeartbeatResponse,
) -> bool {
    let kp = keypair_after(s1, b);
    &&& keys_after(s, s1, b)
    &&& r.mesh_public_key == public_of(kp)
    &&& r.mesh_private_key == private_of(kp)
    &&& s1.desired_allocations == s.desired_allocations
    &&& s1.eject_flags == s.eject_flags
    &&& s1.fs_entries == s.fs_entries
    &&& s1.samba_clients == s.samba_clients
    &&& s1.samba_next_octet == s.samba_next_octet
    &&& s1.samba_pool_start == s.samba_pool_start
    &&& s1.samba_pool_end == s.samba_pool_end
    &&& s1.samba_pool_prefix == s.samba_pool_prefix
    &&& s1.samba_client_dns == s.samba_client_dns
    &&& s1.samba_allowed_ips == s.samba_allowed_ips
    &&& if b.role == AgentRole::Samba {
        &&& is_put(
            &s.samba_hosts,
            &s1.samba_hosts,
            b.node_id@,
            SambaHostState {
                node_id: b.node_id,
                ip: b.ip,
                mesh_port: b.mesh_port,
                status: s1.samba_hosts.at(b.node_id@).status,
            },
        )
        &&& s1.samba_hosts.at(b.node_id@).status@ == "online"@
        &&& r.desired_allocation_bytes == 0
        &&& !r.eject
        &&& s1.nodes == s.nodes
        &&& s1.mesh_peers == s.mesh_peers
    } else {
        &&& is_put(&s.nodes, &s1.nodes, b.node_id@, node_record(b, kp))
        &&& if publishes_peer(b) {
            is_put(&s.mesh_peers, &s1.mesh_peers, b.node_id@, peer_record(b))
        } else {
            s1.mesh_peers == s.mesh_peers
        }
        &&& s1.samba_hosts == s.samba_hosts
        &&& r.desired_allocation_bytes == if s.desired_allocations.contains(b.node_id@) {
            s.desired_allocations.at(b.node_id@)
        } else {
            DEFAULT_ALLOCATION
        }
        &&& r.eject == (s.eject_flags.contains(b.node_id@) && s.eject_flags.at(b.node_id@))
    }
}

/// Records a heartbeat: stores the keys it carries, upserts the node record
/// (and, for a storage node that published its endpoint, key and score, its
/// mesh peer record), and answers with the node's desired allocation, its
/// sticky eject flag and its key pair. Gateway-only nodes are tracked
/// apart and get no allocation.
pub fn heartbeat(st: &mut ControllerState, body: HeartbeatRequest) -> (r: HeartbeatResponse)
    requires
        old(st).wf(),
    ensures
        final(st).wf(),
        heartbeat_post(old(st), final(st), &body, r),
{
    match (&body.mesh_public_key, &body.mesh_private_key) {
        (Some(public), Some(private)) => {
            st.wg_keys.insert(
                body.node_id.clone(),
                WireGuardKeyPair {
                    node_id: body.node_id.clone(),
                    public_key: public.clone(),
                    private_key: private.clone(),
                },
            );
        },
        _ => {},
    }
    let (kp_public, kp_private) = match st.wg_keys.get(body.node_id.as_str()) {
        Some(k) => (Some(k.public_key.clone()), Some(k.private_key.clone())),
        None => (None, None),
    };
    if body.role == AgentRole::Samba {
        st.samba_hosts.insert(
            body.node_id.clone(),
            SambaHostState {
                node_id: body.node_id.clone(),
                ip: copy_opt(&body.ip),
                mesh_port: body.mesh_port,
                status: String::from_str("online"),
            },
        );
        assert(st.samba_hosts.contains(body.node_id@));
        return HeartbeatResponse {
            desired_allocation_bytes: 0,
            eject: false,
            mesh_public_key: kp_public,
            mesh_private_key: kp_private,
        };
    }
    let record = NodeState {
        node_id: body.node_id.clone(),
        hostname: body.hostname.clone(),
        nickname: body.nickname.clone(),
        drives: body.drives,
        role: body.role,
        ip: copy_opt(&body.ip),
        mesh_port: body.mesh_port,
        mesh_endpoint: copy_opt(&body.mesh_endpoint),
        mesh_public_key: match &body.mesh_public_key {
            Some(k) => Some(k.clone()),
            None => copy_opt(&kp_public),
        },
        mesh_private_key: match &body.mesh_private_key {
            Some(k) => Some(k.clone()),
            None => copy_opt(&kp_private),
        },
        mesh_score: body.mesh_score,
        mesh_nat_type: copy_opt(&body.mesh_nat_type),
    };
    st.nodes.insert(body.node_id.clone(), record);
    if body.role == AgentRole::Pure {
        match (&body.mesh_endpoint, &body.mesh_public_key, body.mesh_score) {
            (Some(endpoint), Some(pk), Some(score)) => {
                st.mesh_peers.insert(
                    body.node_id.clone(),
                    MeshPeer {
                        node_id: body.node_id.clone(),
                        endpoint: endpoint.clone(),
                        public_key: pk.clone(),
                        score,
                        nat_type: copy_opt(&body.mesh_nat_type),
                    },
                );
            },
            _ => {},
        }
    }
    let alloc = match st.desired_allocations.get(body.node_id.as_str()) {
        Some(a) => *a,
        None => DEFAULT_ALLOCATION,
    };
    let eject = match st.eject_flags.get(body.node_id.as_str()) {
        Some(e) => *e,
        None => false,
    };
    HeartbeatResponse {
        desired_allocation_bytes: alloc,
        eject,
        mesh_public_key: kp_public,
        mesh_private_key: kp_private,
    }
}

impl MeshPeer {
    pub fn duplicate(&self) -> (r: MeshPeer)
        ensures
            r == *self,
    {
        MeshPeer {
            node_id: self.node_id.clone(),
            endpoint: self.endpoint.clone(),
            public_key: self.public_key.clone(),
            score: self.score,
            nat_type: copy_opt(&self.nat_type),
        }
    }
}

/// The peer entry derived from a stored key pair, for a node that has a key
/// pair and a published endpoint but no mesh peer record.
pub open spec fn keyed_peer(s: &ControllerState, id: Seq<char>) -> Option<MeshPeer> {
    if !s.mesh_peers.contains(id) && s.nodes.contains(id) && s.nodes.at(id).mesh_endpoint is Some {
        let n = s.nodes.at(id);
        Some(
            MeshPeer {
                node_id: s.wg_keys.at(id).node_id,
                endpoint: n.mesh_endpoint->0,
                public_key: s.wg_keys.at(id).public_key,
                score: match n.mesh_score {
                    Some(x) => x,
                    None => 0,
                },
                nat_type: n.mesh_nat_type,
            },
        )
    } else {
        None
    }
}

pub open spec fn keyed_peers(s: &ControllerState, ids: Seq<Seq<char>>) -> Seq<MeshPeer>
    decreases ids.len(),
{
    if ids.len() == 0 {
        Seq::empty()
    } else {
        let prev = keyed_peers(s, ids.drop_last());
        match keyed_peer(s, ids.last()) {
            Some(p) => prev.push(p),
            None => prev,
        }
    }
}

/// The mesh peer records, then the peers derived from stored key pairs.
pub open spec fn mesh_peers_spec(s: &ControllerState) -> Seq<MeshPeer> {
    s.mesh_peers.values() + keyed_peers(s, s.wg_keys.order())
}

/// The first index of a peer with the highest score.
pub open spec fn best_peer(peers: Seq<MeshPeer>) -> int
    decreases peers.len(),
{
    if peers.len() <= 1 {
        0
    } else {
        let b = best_peer(peers.drop_last());
        if peers.last().score > peers[b].score {
            peers.len() - 1
        } else {
            b
        }
    }
}

proof fn lemma_best_peer_bounds(peers: Seq<MeshPeer>)
    ensures
        peers.len() > 0 ==> 0 <= best_peer(peers) < peers.len(),
    decreases peers.len(),
{
    if peers.len() > 1 {
        lemma_best_peer_bounds(peers.drop_last());
    }
}

/// The gateway: the first peer of highest score.
pub fn elect_gateway(peers: &Vec<MeshPeer>) -> (r: Option<String>)
    ensures
        peers@.len() == 0 ==> r is None,
        peers@.len() > 0 ==> r == Some(peers@[best_peer(peers@)].node_id),
{
    if peers.len() == 0 {
        return None;
    }
    let mut best: usize = 0;
    let mut i: usize = 1;
    assert(peers@.subrange(0, 1).len() == 1);
    while i < peers.len()
        invariant
            1 <= i <= peers@.len(),
            best == best_peer(peers@.subrange(0, i as int)),
            best < i,
        decreases peers@.len() - i,
    {
        let ghost pre = peers@.subrange(0, i as int);
        assert(peers@.subrange(0, i + 1).drop_last() =~= pre);
        assert(peers@.subrange(0, i + 1).last() == peers@[i as int]);
        assert(pre[best as int] == peers@[best as int]);
        if peers[i].score > peers[best].score {
            best = i;
        }
        i = i + 1;
    }
    assert(peers@.subrange(0, peers@.len() as int) =~= peers@);
    Some(peers[best].node_id.clone())
}

/// The peers of the mesh (the published records, then nodes known by key
/// pair and endpoint alone) and the elected gateway.
pub fn mesh_info(st: &ControllerState) -> (r: MeshInfo)
    requires
        st.wf(),
    ensures
        r.peers@ == mesh_peers_spec(st),
        r.gateway == (if mesh_peers_spec(st).len() == 0 {
            None::<String>
        } else {
            Some(mesh_peers_spec(st)[best_peer(mesh_peers_spec(st))].node_id)
        }),
{
    let mut peers: Vec<MeshPeer> = Vec::new();
    let mut i: usize = 0;
    while i < st.mesh_peers.len()
        invariant
            st.wf(),
            i <= st.mesh_peers.values().len(),
            peers@ == st.mesh_peers.values().subrange(0, i as int),
        decreases st.mesh_peers.values().len() - i,
    {
        proof {
            st.mesh_peers.lemma_wf();
        }
        peers.push(st.mesh_peers.value_at(i).duplicate());
        i = i + 1;
        assert(peers@ =~= st.mesh_peers.values().subrange(0, i as int));
    }
    proof {
        st.mesh_peers.lemma_wf();
    }
    assert(peers@ =~= st.mesh_peers.values());
    let ghost base = peers@;
    let mut j: usize = 0;
    while j < st.wg_keys.len()
        invariant
            st.wf(),
            j <= st.wg_keys.order().len(),
            base == st.mesh_peers.values(),
            peers@ == base + keyed_peers(st, st.wg_keys.order().subrange(0, j as int)),
        decreases st.wg_keys.order().len() - j,
    {
        let id = st.wg_keys.key_at(j);
        let ghost pre = st.wg_keys.order().subrange(0, j as int);
        assert(st.wg_keys.order().subrange(0, j + 1).drop_last() =~= pre);
        assert(st.wg_keys.order().subrange(0, j + 1).last() == id@);
        if st.mesh_peers.get(id.as_str()).is_none() {
            match st.nodes.get(id.as_str()) {
                Some(node) => {
                    match &node.mesh_endpoint {
                        Some(endpoint) => {
                            let keys = st.wg_keys.get(id.as_str()).unwrap();
                            let p = MeshPeer {
                                node_id: keys.node_id.clone(),
                                endpoint: endpoint.clone(),
                                public_key: keys.public_key.clone(),
                                score: match node.mesh_score {
                                    Some(x) => x,
                                    None => 0,
                                },
                                nat_type: copy_opt(&node.mesh_nat_type),
                            };
                            peers.push(p);
                        },
                        None => {},
                    }
                },
                None => {},
            }
        }
        j = j + 1;
        assert(peers@ =~= base + keyed_peers(st, st.wg_keys.order().subrange(0, j as int)));
    }
    assert(st.wg_keys.order().subrange(0, st.wg_keys.order().len() as int) =~= st.wg_keys.order());
    let gateway = elect_gateway(&peers);
    MeshInfo { peers, gateway }
}

/// The elected gateway has the highest score of all peers, and every peer
/// listed before it scores strictly lower.
pub proof fn law_gateway_is_first_best(peers: Seq<MeshPeer>)
    requires
        peers.len() > 0,
    ensures
        0 <= best_peer(peers) < peers.len(),
        forall|j: int| 0 <= j < peers.len() ==> (#[trigger] peers[j]).score <= peers[best_peer(peers)].score,
        forall|j: int| 0 <= j < best_peer(peers) ==> (#[trigger] peers[j]).score < peers[best_peer(peers)].score,
    decreases peers.len(),
{
    lemma_best_peer_bounds(peers);
    if peers.len() > 1 {
        let d = peers.drop_last();
        law_gateway_is_first_best(d);
        assert forall|j: int| 0 <= j < d.len() implies d[j] == peers[j] by {}
    }
}

} // verus!
