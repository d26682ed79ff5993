use vstd::prelude::*;
use crate::controller::{AgentRole, MeshInfo, MeshPeer};
use crate::fsmeta::{ChunkMeta, FsEntry, FsNodeType};
use crate::natclass::{
    mode_spec, nat_from_name_spec, nat_type_from_name, select_connectivity_mode, ConnectivityMode,
    Endpoint, NatType,
};
use crate::placement::{ClusterState, DriveStatus, NodeStatus};
use crate::table::Table;

verus! {

impl AgentRole {
    /// The word appended to the host name of a node of this role.
    pub fn suffix(&self) -> (r: &'static str)
        ensures
            r@ == (match self {
                AgentRole::Pure => "pure"@,
                AgentRole::Samba => "samba"@,
            }),
    {
        match self {
            AgentRole::Pure => "pure",
            AgentRole::Samba => "samba",
        }
    }
}

/// The role named by an (already lowercased) setting: `samba` is the
/// gateway-only role, anything else a storage node.
pub fn role_from_name(s: &str) -> (r: AgentRole)
    ensures
        r == (if s@ == "samba"@ {
            AgentRole::Samba
        } else {
            AgentRole::Pure
        }),
{
    if String::from_str(s).eq(&String::from_str("samba")) {
        AgentRole::Samba
    } else {
        AgentRole::Pure
    }
}

/// A STUN-discovered public endpoint and NAT class.
#[derive(Debug, Clone, Copy, PartialEq, Eq, Structural)]
pub struct PublicEndpoint {
    pub public_addr: Endpoint,
    pub nat_type: NatType,
}

/// What the agent knows of a drive, for placement.
#[derive(Debug, Clone)]
pub struct DriveInfo {
    pub id: String,
    pub free_bytes: u64,
    pub allocated_bytes: u64,
}

/// What the agent knows of a node, for placement; `mesh_score` is in
/// millionths.
#[derive(Debug, Clone)]
pub struct NodeInfo {
    pub drives: Vec<DriveInfo>,
    pub mesh_score: u32,
}

/// The agent's view of the cluster, keyed by node id.
pub struct AgentState {
    pub node_info: Table<NodeInfo>,
}

/// `d` is placement's view of drive `i`.
pub open spec fn drive_matches(i: DriveInfo, d: DriveStatus) -> bool {
    d.drive_id == i.id && d.free_bytes == i.free_bytes && d.allocated_bytes == i.allocated_bytes
}

pub open spec fn node_matches(id: Seq<char>, i: NodeInfo, n: NodeStatus) -> bool {
    &&& n.node_id@ == id
    &&& n.mesh_score == i.mesh_score
    &&& n.drives@.len() == i.drives@.len()
    &&& forall|j: int| 0 <= j < n.drives@.len() ==> #[trigger] drive_matches(i.drives@[j], n.drives@[j])
}

fn drive_statuses(drives: &Vec<DriveInfo>) -> (r: Vec<DriveStatus>)
    ensures
        r@.len() == drives@.len(),
        forall|j: int| 0 <= j < r@.len() ==> #[trigger] drive_matches(drives@[j], r@[j]),
{
    let mut r: Vec<DriveStatus> = Vec::new();
    let mut i: usize = 0;
    while i < drives.len()
        invariant
            i <= drives@.len(),
            r@.len() == i,
            forall|j: int| 0 <= j < i ==> #[trigger] drive_matches(drives@[j], r@[j]),
        decreases drives@.len() - i,
    {
        let d = &drives[i];
        r.push(
            DriveStatus {
                drive_id: d.id.clone(),
                free_bytes: d.free_bytes,
                allocated_bytes: d.allocated_bytes,
            },
        );
        i = i + 1;
    }
    r
}

/// The snapshot placement works on, with the nodes in the order the agent
/// learned of them.
pub fn get_cluster_state(st: &AgentState) -> (r: ClusterState)
    requires
        st.node_info.wf(),
    ensures
        r.nodes@.len() == st.node_info.order().len(),
        forall|k: int|
            0 <= k < r.nodes@.len() ==> #[trigger] node_matches(
                st.node_info.order()[k],
                st.node_info.values()[k],
                r.nodes@[k],
            ),
{
    let mut nodes: Vec<NodeStatus> = Vec::new();
    let mut i: usize = 0;
    proof {
        st.node_info.lemma_wf();
    }
    while i < st.node_info.len()
        invariant
            st.node_info.wf(),
            i <= st.node_info.order().len(),
            nodes@.len() == i,
            forall|k: int|
                0 <= k < i ==> #[trigger] node_matches(
                    st.node_info.order()[k],
                    st.node_info.values()[k],
                    nodes@[k],
                ),
        decreases st.node_info.order().len() - i,
    {
        let id = st.node_info.key_at(i);
        let info = st.node_info.value_at(i);
        let drives = drive_statuses(&info.drives);
        let n = NodeStatus { node_id: id.clone(), mesh_score: info.mesh_score, drives };
        assert(node_matches(st.node_info.order()[i as int], st.node_info.values()[i as int], n));
        nodes.push(n);
        i = i + 1;
    }
    ClusterState { nodes }
}

// ---------------------------------------------------------------------------
// Drives and configuration
// ---------------------------------------------------------------------------

/// Per-drive figures sent with a heartbeat.
#[derive(Debug, Clone)]
pub struct DriveReport {
    pub id: String,
    pub path: String,
    pub used_bytes: u64,
    pub allocated_bytes: u64,
}

/// A drive as measured on disk: id, path, bytes of chunk data, bytes
/// reserved by the allocation file.
#[derive(Debug, Clone)]
pub struct DriveUsage {
    pub id: String,
    pub path: String,
    pub data_bytes: u64,
    pub reserved_bytes: u64,
}

/// The heartbeat figures of measured drives: data is what is used, data
/// plus reservation what is allocated.
pub fn discover_drives(usages: &Vec<DriveUsage>) -> (r: Vec<DriveReport>)
    requires
        forall|i: int|
            0 <= i < usages@.len() ==> (#[trigger] usages@[i]).data_bytes + usages@[i].reserved_bytes
                <= u64::MAX,
    ensures
        r@.len() == usages@.len(),
        forall|i: int|
            0 <= i < r@.len() ==> {
                &&& (#[trigger] r@[i]).id == usages@[i].id
                &&& r@[i].path == usages@[i].path
                &&& r@[i].used_bytes == usages@[i].data_bytes
                &&& r@[i].allocated_bytes == usages@[i].data_bytes + usages@[i].reserved_bytes
            },
{
    let mut r: Vec<DriveReport> = Vec::new();
    let mut i: usize = 0;
    while i < usages.len()
        invariant
            i <= usages@.len(),
            r@.len() == i,
            forall|k: int|
                0 <= k < usages@.len() ==> (#[trigger] usages@[k]).data_bytes
                    + usages@[k].reserved_bytes <= u64::MAX,
            forall|k: int|
                0 <= k < i ==> {
                    &&& (#[trigger] r@[k]).id == usages@[k].id
                    &&& r@[k].path == usages@[k].path
                    &&& r@[k].used_bytes == usages@[k].data_bytes
                    &&& r@[k].allocated_bytes == usages@[k].data_bytes + usages@[k].reserved_bytes
                },
        decreases usages@.len() - i,
    {
        let u = &usages[i];
        assert(u.data_bytes + u.reserved_bytes <= u64::MAX);
        r.push(
            DriveReport {
                id: u.id.clone(),
                path: u.path.clone(),
                used_bytes: u.data_bytes,
                allocated_bytes: u.data_bytes + u.reserved_bytes,
            },
        );
        i = i + 1;
    }
    r
}

/// The reservation each drive should hold so that, where the data allows,
/// the drives' totals add up to `desired`: the desired bytes are split
/// evenly (the first `desired % n` drives take one byte more), no drive is
/// asked to hold less than its data, and the reservation is the rest.
pub open spec fn reservation_spec(desired: nat, n: nat, i: nat, data: nat) -> nat {
    let share = desired / n + if i < desired % n {
        1nat
    } else {
        0nat
    };
    if share < data {
        0
    } else {
        (share - data) as nat
    }
}

/// The part of `desired` that drive `i` of `n` is asked to hold.
pub open spec fn share_of(desired: nat, n: nat, i: nat) -> nat {
    desired / n + if i < desired % n {
        1nat
    } else {
        0nat
    }
}

/// Data plus reservation over the first `k` drives.
pub open spec fn planned_total(desired: nat, data: Seq<u64>, k: int) -> nat
    decreases k,
{
    if k <= 0 {
        0
    } else {
        (planned_total(desired, data, k - 1) + data[k - 1] + reservation_spec(
            desired,
            data.len(),
            (k - 1) as nat,
            data[k - 1] as nat,
        )) as nat
    }
}

proof fn lemma_planned_prefix(desired: nat, data: Seq<u64>, k: int)
    requires
        data.len() > 0,
        0 <= k <= data.len(),
        forall|i: int| 0 <= i < data.len() ==> #[trigger] data[i] <= share_of(desired, data.len(), i as nat),
    ensures
        planned_total(desired, data, k) == k * (desired / data.len()) + if k < desired % data.len() {
            k
        } else {
            (desired % data.len()) as int
        },
    decreases k,
{
    if k == 0 {
        assert(0 * (desired / data.len()) == 0) by (nonlinear_arith);
    }
    if k > 0 {
        lemma_planned_prefix(desired, data, k - 1);
        let n = data.len();
        let per = desired / n;
        let rem = desired % n;
        assert(data[k - 1] <= share_of(desired, n, (k - 1) as nat));
        assert(data[k - 1] + reservation_spec(desired, n, (k - 1) as nat, data[k - 1] as nat)
            == share_of(desired, n, (k - 1) as nat));
        assert(k * per == (k - 1) * per + per) by (nonlinear_arith);
        assert(planned_total(desired, data, k) == planned_total(desired, data, k - 1) + share_of(
            desired,
            n,
            (k - 1) as nat,
        ));
        if k - 1 < rem {
            assert(share_of(desired, n, (k - 1) as nat) == per + 1);
        } else {
            assert(share_of(desired, n, (k - 1) as nat) == per);
        }
    }
}

/// When no drive holds more data than its share, the drives' data and
/// reservations add up to exactly the desired allocation.
pub proof fn law_reservations_sum_to_target(desired: nat, data: Seq<u64>)
    requires
        data.len() > 0,
        forall|i: int| 0 <= i < data.len() ==> #[trigger] data[i] <= share_of(desired, data.len(), i as nat),
    ensures
        planned_total(desired, data, data.len() as int) == desired,
{
    lemma_planned_prefix(desired, data, data.len() as int);
    let n = data.len();
    assert(desired % n < n) by (nonlinear_arith)
        requires
            n > 0,
    ;
    assert(n * (desired / n) + desired % n == desired) by (nonlinear_arith)
        requires
            n > 0,
    ;
}

/// Target sizes of the drives' reservation files for a desired allocation,
/// given the bytes of data on each drive.
pub fn reservation_plan(desired: u64, data_bytes: &Vec<u64>) -> (r: Vec<u64>)
    ensures
        r@.len() == data_bytes@.len(),
        forall|i: int|
            0 <= i < r@.len() ==> #[trigger] r@[i] == reservation_spec(
                desired as nat,
                data_bytes@.len(),
                i as nat,
                data_bytes@[i] as nat,
            ),
{
    let mut r: Vec<u64> = Vec::new();
    let n = data_bytes.len();
    if n == 0 {
        return r;
    }
    let per = desired / n as u64;
    let rem = desired % n as u64;
    let mut i: usize = 0;
    while i < n
        invariant
            n == data_bytes@.len(),
            n > 0,
            per as int == desired as int / n as int,
            rem as int == desired as int % n as int,
            i <= n,
            r@.len() == i,
            forall|k: int|
                0 <= k < i ==> #[trigger] r@[k] == reservation_spec(
                    desired as nat,
                    n as nat,
                    k as nat,
                    data_bytes@[k] as nat,
                ),
        decreases n - i,
    {
        assert(per * n + rem == desired) by (nonlinear_arith)
            requires
                per as int == desired as int / n as int,
                rem as int == desired as int % n as int,
                n > 0,
        ;
        assert(per <= desired) by (nonlinear_arith)
            requires
                per as int == desired as int / n as int,
                n > 0,
        ;
        let mut target: u64 = per;
        if (i as u64) < rem {
            assert(per < desired) by (nonlinear_arith)
                requires
                    per * n + rem == desired,
                    rem > 0,
                    n > 0,
            ;
            target = per + 1;
        }
        let data = data_bytes[i];
        let reserved: u64 = if target < data {
            0
        } else {
            target - data
        };
        r.push(reserved);
        i = i + 1;
    }
    r
}

/// The agent's persisted configuration.
#[derive(Debug, Clone)]
pub struct AgentConfig {
    pub agent_id: String,
    pub role: AgentRole,
    pub ip: String,
    pub port: u16,
    pub mesh_public_key: Option<String>,
    pub mesh_private_key: Option<String>,
    pub allocated_bytes: u64,
    pub drives: Vec<String>,
}

pub open spec fn allocated_sum(d: Seq<DriveReport>) -> nat
    decreases d.len(),
{
    if d.len() == 0 {
        0
    } else {
        (allocated_sum(d.drop_last()) + d.last().allocated_bytes) as nat
    }
}

proof fn lemma_allocated_prefix(d: Seq<DriveReport>, k: int)
    requires
        0 <= k <= d.len(),
    ensures
        allocated_sum(d.subrange(0, k)) <= allocated_sum(d),
    decreases d.len(),
{
    if k < d.len() {
        lemma_allocated_prefix(d.drop_last(), k);
        assert(d.drop_last().subrange(0, k) =~= d.subrange(0, k));
    } else {
        assert(d.subrange(0, k) =~= d);
    }
}

/// Folds a heartbeat's outcome into the configuration: the allocation is the
/// drives' total, the drive list their ids, `ip` the current address, and
/// keys handed out by the controller replace the stored ones.
pub fn update_config_from_heartbeat(
    cfg: &mut AgentConfig,
    drives: &Vec<DriveReport>,
    mesh_public_key: Option<String>,
    mesh_private_key: Option<String>,
    ip: String,
)
    requires
        allocated_sum(drives@) <= u64::MAX,
    ensures
        final(cfg).allocated_bytes == allocated_sum(drives@),
        final(cfg).drives@.len() == drives@.len(),
        forall|i: int| 0 <= i < drives@.len() ==> (#[trigger] final(cfg).drives@[i]) == drives@[i].id,
        final(cfg).ip == ip,
        final(cfg).mesh_public_key == (match mesh_public_key {
            Some(k) => Some(k),
            None => old(cfg).mesh_public_key,
        }),
        final(cfg).mesh_private_key == (match mesh_private_key {
            Some(k) => Some(k),
            None => old(cfg).mesh_private_key,
        }),
        final(cfg).agent_id == old(cfg).agent_id,
        final(cfg).role == old(cfg).role,
        final(cfg).port == old(cfg).port,
{
    let mut total: u64 = 0;
    let mut ids: Vec<String> = Vec::new();
    let mut i: usize = 0;
    while i < drives.len()
        invariant
            i <= drives@.len(),
            allocated_sum(drives@) <= u64::MAX,
            total == allocated_sum(drives@.subrange(0, i as int)),
            ids@.len() == i,
            forall|k: int| 0 <= k < i ==> (#[trigger] ids@[k]) == drives@[k].id,
        decreases drives@.len() - i,
    {
        proof {
            lemma_allocated_prefix(drives@, i + 1);
            assert(drives@.subrange(0, i + 1).drop_last() =~= drives@.subrange(0, i as int));
        }
        total = total + drives[i].allocated_bytes;
        ids.push(drives[i].id.clone());
        i = i + 1;
    }
    assert(drives@.subrange(0, drives@.len() as int) =~= drives@);
    cfg.allocated_bytes = total;
    cfg.drives = ids;
    cfg.ip = ip;
    match mesh_public_key {
        Some(k) => {
            cfg.mesh_public_key = Some(k);
        },
        None => {},
    }
    match mesh_private_key {
        Some(k) => {
            cfg.mesh_private_key = Some(k);
        },
        None => {},
    }
}

/// The first port in `from .. to` that `used` does not hold.
pub open spec fn first_free_in(from: int, to: int, used: Seq<u16>) -> Option<u16>
    decreases to - from,
{
    if from >= to {
        None
    } else if used.contains(from as u16) {
        first_free_in(from + 1, to, used)
    } else {
        Some(from as u16)
    }
}

/// The port a search from `max(preferred, 1024)` upwards finds, wrapping
/// round to 1024 after 65535.
pub open spec fn port_choice(preferred: u16, used: Seq<u16>) -> Option<u16> {
    let start = if preferred < 1024 {
        1024
    } else {
        preferred as int
    };
    match first_free_in(start, 65536, used) {
        Some(p) => Some(p),
        None => first_free_in(1024, start, used),
    }
}

fn first_free_between(from: u32, to: u32, used: &Vec<u16>) -> (r: Option<u16>)
    requires
        from <= to <= 65536,
    ensures
        r == first_free_in(from as int, to as int, used@),
{
    let mut port: u32 = from;
    while port < to
        invariant
            from <= port <= to <= 65536,
            first_free_in(from as int, to as int, used@) == first_free_in(port as int, to as int, used@),
        decreases to - port,
    {
        let p = port as u16;
        let mut taken = false;
        let mut k: usize = 0;
        while k < used.len() && !taken
            invariant
                k <= used@.len(),
                taken ==> used@.contains(p),
                !taken ==> forall|j: int| 0 <= j < k ==> used@[j] != p,
            decreases used@.len() - k,
        {
            if used[k] == p {
                taken = true;
                assert(used@[k as int] == p);
            }
            k = k + 1;
        }
        assert(used@.contains(p) ==> taken);
        if !taken {
            return Some(p);
        }
        port = port + 1;
    }
    None
}

/// Picks a mesh port at or above `preferred` (and never below 1024) that
/// no other agent configuration uses, wrapping round to 1024 past 65535;
/// none when every port from 1024 up is taken.
pub fn select_available_port(preferred: u16, used: &Vec<u16>) -> (r: Option<u16>)
    ensures
        r == port_choice(preferred, used@),
{
    let start: u32 = if preferred < 1024 {
        1024
    } else {
        preferred as u32
    };
    match first_free_between(start, 65536, used) {
        Some(p) => Some(p),
        None => first_free_between(1024, start, used),
    }
}

pub open spec fn count_port(used: Seq<u16>, port: u16) -> nat
    decreases used.len(),
{
    if used.len() == 0 {
        0
    } else {
        count_port(used.drop_last(), port) + if used.last() == port {
            1nat
        } else {
            0nat
        }
    }
}

/// Whether a stored configuration's port is shared with another agent's
/// configuration: it appears more than once among the configured ports.
pub fn port_shared(port: u16, used: &Vec<u16>) -> (r: bool)
    ensures
        r == (count_port(used@, port) > 1),
{
    let mut n: usize = 0;
    let mut i: usize = 0;
    while i < used.len()
        invariant
            i <= used@.len(),
            n == count_port(used@.subrange(0, i as int), port),
            n <= i,
        decreases used@.len() - i,
    {
        assert(used@.subrange(0, i + 1).drop_last() =~= used@.subrange(0, i as int));
        if used[i] == port {
            n = n + 1;
        }
        i = i + 1;
    }
    assert(used@.subrange(0, used@.len() as int) =~= used@);
    n > 1
}

/// Inode numbers are never 0: a path hash of 0 is moved to 1.
pub fn nonzero_inode(h: u64) -> (r: u64)
    ensures
        r == if h == 0 {
            1
        } else {
            h
        },
{
    if h == 0 {
        1
    } else {
        h
    }
}

// ---------------------------------------------------------------------------
// Peers and the drain on shutdown
// ---------------------------------------------------------------------------

/// A peer of the mesh and how to reach it.
#[derive(Debug, Clone)]
pub struct PeerConnection {
    pub node_id: String,
    pub endpoint: String,
    pub mode: ConnectivityMode,
    pub nat_type: NatType,
}

pub open spec fn opt_view(o: Option<String>) -> Option<Seq<char>> {
    match o {
        Some(s) => Some(s@),
        None => None,
    }
}

/// The connections for the mesh's peers other than `self_id`, with the mode
/// chosen from our NAT class and each peer's published one.
pub open spec fn connections_spec(peers: Seq<MeshPeer>, self_id: Seq<char>, ours: NatType) -> Seq<
    (Seq<char>, Seq<char>, ConnectivityMode, NatType),
>
    decreases peers.len(),
{
    if peers.len() == 0 {
        Seq::empty()
    } else {
        let prev = connections_spec(peers.drop_last(), self_id, ours);
        let p = peers.last();
        if p.node_id@ == self_id {
            prev
        } else {
            let t = nat_from_name_spec(opt_view(p.nat_type));
            prev.push((p.node_id@, p.endpoint@, mode_spec(ours, t), t))
        }
    }
}

pub open spec fn connection_view(c: PeerConnection) -> (Seq<char>, Seq<char>, ConnectivityMode, NatType) {
    (c.node_id@, c.endpoint@, c.mode, c.nat_type)
}

/// Turns the mesh listing into connections to every other peer.
pub fn peer_connections(info: &MeshInfo, self_id: &str, our_nat: NatType) -> (r: Vec<PeerConnection>)
    ensures
        r@.map_values(|c: PeerConnection| connection_view(c)) == connections_spec(
            info.peers@,
            self_id@,
            our_nat,
        ),
{
    let me = String::from_str(self_id);
    let mut r: Vec<PeerConnection> = Vec::new();
    let mut i: usize = 0;
    while i < info.peers.len()
        invariant
            i <= info.peers@.len(),
            me@ == self_id@,
            r@.map_values(|c: PeerConnection| connection_view(c)) == connections_spec(
                info.peers@.subrange(0, i as int),
                self_id@,
                our_nat,
            ),
        decreases info.peers@.len() - i,
    {
        let p = &info.peers[i];
        assert(info.peers@.subrange(0, i + 1).drop_last() =~= info.peers@.subrange(0, i as int));
        assert(info.peers@.subrange(0, i + 1).last() == *p);
        if !p.node_id.eq(&me) {
            let t = nat_type_from_name(&p.nat_type);
            let mode = select_connectivity_mode(&our_nat, &t);
            r.push(
                PeerConnection {
                    node_id: p.node_id.clone(),
                    endpoint: p.endpoint.clone(),
                    mode,
                    nat_type: t,
                },
            );
        }
        i = i + 1;
        assert(r@.map_values(|c: PeerConnection| connection_view(c)) =~= connections_spec(
            info.peers@.subrange(0, i as int),
            self_id@,
            our_nat,
        ));
    }
    assert(info.peers@.subrange(0, info.peers@.len() as int) =~= info.peers@);
    r
}

/// `ps` with `p` placed before the first peer of lower score.
pub open spec fn insert_by_score(ps: Seq<MeshPeer>, p: MeshPeer) -> Seq<MeshPeer>
    decreases ps.len(),
{
    if ps.len() == 0 {
        seq![p]
    } else if ps[0].score < p.score {
        seq![p] + ps
    } else {
        seq![ps[0]] + insert_by_score(ps.drop_first(), p)
    }
}

/// The peers other than `self_id`, highest score first; peers of equal score
/// keep their order.
pub open spec fn by_score(peers: Seq<MeshPeer>, self_id: Seq<char>) -> Seq<MeshPeer>
    decreases peers.len(),
{
    if peers.len() == 0 {
        Seq::empty()
    } else {
        let prev = by_score(peers.drop_last(), self_id);
        if peers.last().node_id@ == self_id {
            prev
        } else {
            insert_by_score(prev, peers.last())
        }
    }
}

pub open spec fn sorted_by_score(ps: Seq<MeshPeer>) -> bool {
    forall|i: int, j: int| 0 <= i < j < ps.len() ==> ps[i].score >= ps[j].score
}

proof fn lemma_insert_sorted(ps: Seq<MeshPeer>, p: MeshPeer)
    requires
        sorted_by_score(ps),
    ensures
        sorted_by_score(insert_by_score(ps, p)),
        insert_by_score(ps, p).len() == ps.len() + 1,
        insert_by_score(ps, p).to_multiset() == ps.to_multiset().insert(p),
    decreases ps.len(),
{
    broadcast use vstd::seq_lib::group_to_multiset_ensures, vstd::multiset::group_multiset_axioms;

    if ps.len() == 0 {
        assert(seq![p] =~= Seq::<MeshPeer>::empty().push(p));
    } else if ps[0].score < p.score {
        let r = seq![p] + ps;
        assert forall|i: int, j: int| 0 <= i < j < r.len() implies r[i].score >= r[j].score by {
            if i > 0 {
                assert(r[i] == ps[i - 1]);
                assert(r[j] == ps[j - 1]);
            } else {
                assert(r[j] == ps[j - 1]);
                assert(ps[0].score >= ps[j - 1].score || j - 1 == 0);
            }
        }
        vstd::seq_lib::lemma_multiset_commutative(seq![p], ps);
        assert(seq![p] =~= Seq::<MeshPeer>::empty().push(p));
    } else {
        let t = ps.drop_first();
        assert(sorted_by_score(t)) by {
            assert forall|i: int, j: int| 0 <= i < j < t.len() implies t[i].score >= t[j].score by {
                assert(t[i] == ps[i + 1]);
                assert(t[j] == ps[j + 1]);
            }
        }
        lemma_insert_sorted(t, p);
        let it = insert_by_score(t, p);
        let r = seq![ps[0]] + it;
        assert forall|i: int, j: int| 0 <= i < j < r.len() implies r[i].score >= r[j].score by {
            if i > 0 {
                assert(r[i] == it[i - 1]);
                assert(r[j] == it[j - 1]);
            } else {
                assert(r[j] == it[j - 1]);
                assert(it.to_multiset().count(it[j - 1]) > 0) by {
                                assert(it.contains(it[j - 1]));
                }
                assert(ps.to_multiset().insert(p).count(it[j - 1]) > 0);
                if it[j - 1] != p {
                                assert(t.to_multiset().count(it[j - 1]) > 0);
                    assert(t.contains(it[j - 1]));
                    let k = choose|k: int| 0 <= k < t.len() && t[k] == it[j - 1];
                    assert(t[k] == ps[k + 1]);
                }
            }
        }
        vstd::seq_lib::lemma_multiset_commutative(seq![ps[0]], it);
        vstd::seq_lib::lemma_multiset_commutative(seq![ps[0]], t);
        assert(seq![ps[0]] + t =~= ps);
    }
}

/// The order in which a draining agent offers its chunks to the other
/// peers: highest mesh score first.
pub fn drain_order(peers: &Vec<MeshPeer>, self_id: &str) -> (r: Vec<MeshPeer>)
    ensures
        r@ == by_score(peers@, self_id@),
{
    let me = String::from_str(self_id);
    let mut r: Vec<MeshPeer> = Vec::new();
    let mut i: usize = 0;
    while i < peers.len()
        invariant
            i <= peers@.len(),
            me@ == self_id@,
            r@ == by_score(peers@.subrange(0, i as int), self_id@),
        decreases peers@.len() - i,
    {
        let p = &peers[i];
        assert(peers@.subrange(0, i + 1).drop_last() =~= peers@.subrange(0, i as int));
        assert(peers@.subrange(0, i + 1).last() == *p);
        if !p.node_id.eq(&me) {
            let mut k: usize = 0;
            let ghost prev = r@;
            assert(prev.subrange(0, prev.len() as int) =~= prev);
            assert(prev.subrange(0, 0) + insert_by_score(prev, *p) =~= insert_by_score(prev, *p));
            while k < r.len() && r[k].score >= p.score
                invariant
                    k <= r@.len(),
                    r@ == prev,
                    insert_by_score(prev, *p) == prev.subrange(0, k as int) + insert_by_score(
                        prev.subrange(k as int, prev.len() as int),
                        *p,
                    ),
                decreases r@.len() - k,
            {
                let ghost rest = prev.subrange(k as int, prev.len() as int);
                assert(rest.drop_first() =~= prev.subrange(k + 1, prev.len() as int));
                assert(prev.subrange(0, k + 1) =~= prev.subrange(0, k as int) + seq![rest[0]]);
                k = k + 1;
            }
            let ghost rest = prev.subrange(k as int, prev.len() as int);
            r.insert(k, p.duplicate());
            assert(r@ =~= prev.subrange(0, k as int) + insert_by_score(rest, *p));
        }
        i = i + 1;
    }
    assert(peers@.subrange(0, peers@.len() as int) =~= peers@);
    r
}

/// The drain order offers every other peer once, highest score first.
pub proof fn law_drain_order(peers: Seq<MeshPeer>, self_id: Seq<char>)
    ensures
        sorted_by_score(by_score(peers, self_id)),
        by_score(peers, self_id).to_multiset() == peers.filter(
            |p: MeshPeer| p.node_id@ != self_id,
        ).to_multiset(),
    decreases peers.len(),
{
    broadcast use vstd::seq_lib::group_to_multiset_ensures, vstd::multiset::group_multiset_axioms;

    if peers.len() == 0 {
        assert(peers.filter(|p: MeshPeer| p.node_id@ != self_id) =~= Seq::<MeshPeer>::empty());
    } else {
        let d = peers.drop_last();
        law_drain_order(d, self_id);
        let f = |p: MeshPeer| p.node_id@ != self_id;
        d.lemma_filter_push(peers.last(), f);
        assert(d.push(peers.last()) =~= peers);
        if peers.last().node_id@ != self_id {
            lemma_insert_sorted(by_score(d, self_id), peers.last());
            }
    }
}

/// The chunks in `entries` (the entries of one directory) that are stored
/// on `node_id`, each with the path of its file.
pub open spec fn local_chunks_spec(entries: Seq<(String, FsEntry)>, node_id: Seq<char>) -> Seq<
    (Seq<char>, ChunkMeta),
>
    decreases entries.len(),
{
    if entries.len() == 0 {
        Seq::empty()
    } else {
        let prev = local_chunks_spec(entries.drop_last(), node_id);
        let e = entries.last().1;
        if e.node_type == FsNodeType::File {
            prev + own_chunks(e.path@, e.chunks@, node_id)
        } else {
            prev
        }
    }
}

pub open spec fn own_chunks(path: Seq<char>, chunks: Seq<ChunkMeta>, node_id: Seq<char>) -> Seq<
    (Seq<char>, ChunkMeta),
>
    decreases chunks.len(),
{
    if chunks.len() == 0 {
        Seq::empty()
    } else {
        let prev = own_chunks(path, chunks.drop_last(), node_id);
        if chunks.last().node_id@ == node_id {
            prev.push((path, chunks.last()))
        } else {
            prev
        }
    }
}

pub open spec fn located_view(v: Seq<(String, ChunkMeta)>) -> Seq<(Seq<char>, ChunkMeta)> {
    v.map_values(|x: (String, ChunkMeta)| (x.0@, x.1))
}

/// The chunks of the files in one directory listing that live on `node_id`.
pub fn local_chunks(entries: &Vec<(String, FsEntry)>, node_id: &str) -> (r: Vec<(String, ChunkMeta)>)
    ensures
        located_view(r@) == local_chunks_spec(entries@, node_id@),
{
    let me = String::from_str(node_id);
    let mut r: Vec<(String, ChunkMeta)> = Vec::new();
    let mut i: usize = 0;
    while i < entries.len()
        invariant
            i <= entries@.len(),
            me@ == node_id@,
            located_view(r@) == local_chunks_spec(entries@.subrange(0, i as int), node_id@),
        decreases entries@.len() - i,
    {
        let e = &entries[i].1;
        assert(entries@.subrange(0, i + 1).drop_last() =~= entries@.subrange(0, i as int));
        assert(entries@.subrange(0, i + 1).last().1 == *e);
        if e.node_type == FsNodeType::File {
            let ghost base = located_view(r@);
            let mut k: usize = 0;
            while k < e.chunks.len()
                invariant
                    k <= e.chunks@.len(),
                    me@ == node_id@,
                    located_view(r@) == base + own_chunks(
                        e.path@,
                        e.chunks@.subrange(0, k as int),
                        node_id@,
                    ),
                decreases e.chunks@.len() - k,
            {
                assert(e.chunks@.subrange(0, k + 1).drop_last() =~= e.chunks@.subrange(0, k as int));
                assert(e.chunks@.subrange(0, k + 1).last() == e.chunks@[k as int]);
                let ghost before = r@;
                if e.chunks[k].node_id.eq(&me) {
                    r.push((e.path.clone(), e.chunks[k].duplicate()));
                    assert(located_view(r@) =~= located_view(before).push((e.path@, e.chunks@[k as int])));
                } else {
                    assert(r@ == before);
                }
                k = k + 1;
                assert(located_view(r@) =~= base + own_chunks(
                    e.path@,
                    e.chunks@.subrange(0, k as int),
                    node_id@,
                ));
            }
            assert(e.chunks@.subrange(0, e.chunks@.len() as int) =~= e.chunks@);
        }
        i = i + 1;
    }
    assert(entries@.subrange(0, entries@.len() as int) =~= entries@);
    r
}

/// The paths of the subdirectories in one directory listing, which a drain
/// walks next.
pub fn subdirectories(entries: &Vec<(String, FsEntry)>) -> (r: Vec<String>)
    ensures
        r@.map_values(|s: String| s@) == entries@.filter(
            |x: (String, FsEntry)| x.1.node_type == FsNodeType::Directory,
        ).map_values(|x: (String, FsEntry)| x.1.path@),
{
    let ghost f = |x: (String, FsEntry)| x.1.node_type == FsNodeType::Directory;
    let mut r: Vec<String> = Vec::new();
    let mut i: usize = 0;
    while i < entries.len()
        invariant
            i <= entries@.len(),
            f == (|x: (String, FsEntry)| x.1.node_type == FsNodeType::Directory),
            r@.map_values(|s: String| s@) == entries@.subrange(0, i as int).filter(f).map_values(
                |x: (String, FsEntry)| x.1.path@,
            ),
        decreases entries@.len() - i,
    {
        let ghost pre = entries@.subrange(0, i as int);
        assert(entries@.subrange(0, i + 1) =~= pre.push(entries@[i as int]));
        proof {
            pre.lemma_filter_push(entries@[i as int], f);
        }
        let ghost before = r@;
        if entries[i].1.node_type == FsNodeType::Directory {
            r.push(entries[i].1.path.clone());
            assert(r@.map_values(|s: String| s@) =~= before.map_values(|s: String| s@).push(
                entries@[i as int].1.path@,
            ));
            assert(pre.push(entries@[i as int]).filter(f) == pre.filter(f).push(entries@[i as int]));
        } else {
            assert(pre.push(entries@[i as int]).filter(f) == pre.filter(f));
        }
        i = i + 1;
        assert(r@.map_values(|s: String| s@) =~= entries@.subrange(0, i as int).filter(f).map_values(
            |x: (String, FsEntry)| x.1.path@,
        ));
    }
    assert(entries@.subrange(0, entries@.len() as int) =~= entries@);
    r
}

// ---------------------------------------------------------------------------
// The agent's WireGuard settings
// ---------------------------------------------------------------------------

/// The overlay address derived from an agent id: `fd44::<x>/64`, where `x`
/// is the first two bytes of the SHA-256 digest of the id, in hex.
pub open spec fn derived_ipv6_spec(agent_id: Seq<char>) -> Seq<char> {
    let d = crate::chunkio::sha256_of(vstd::utf8::encode_utf8(agent_id));
    "fd44::"@ + crate::text::hex_spec((d[0] as nat) * 256 + d[1] as nat) + "/64"@
}

pub fn derive_ipv6_address(agent_id: &str) -> (r: String)
    ensures
        r@ == derived_ipv6_spec(agent_id@),
{
    let bytes = agent_id.as_bytes_vec();
    let d = crate::chunkio::sha256_digest(bytes.as_slice());
    let suffix: u64 = (d[0] as u64) * 256 + d[1] as u64;
    String::from_str("fd44::").concat(crate::text::hex(suffix).as_str()).concat("/64")
}

/// The agent's WireGuard configuration: its own interface, and the
/// controller as its one peer.
pub open spec fn agent_config_text(
    private_key: Seq<char>,
    address: Seq<char>,
    listen_port: u16,
    dns: Seq<char>,
    controller_public_key: Seq<char>,
    allowed_ips: Seq<char>,
    endpoint: Seq<char>,
) -> Seq<char> {
    "[Interface]\n"@ + "PrivateKey = "@ + private_key + "\n"@ + "Address = "@ + address + "\n"@
        + "ListenPort = "@ + crate::text::decimal_spec(listen_port as nat) + "\n"@ + "DNS = "@ + dns
        + "\n"@ + "\n"@ + "[Peer]\n"@ + "PublicKey = "@ + controller_public_key + "\n"@
        + "AllowedIPs = "@ + allowed_ips + "\n"@ + "Endpoint = "@ + endpoint + "\n"@
        + "PersistentKeepalive = 25\n"@
}

/// Renders the agent's WireGuard configuration; none while the agent has no
/// private key.
pub fn render_agent_wireguard_config(
    cfg: &AgentConfig,
    controller_public_key: &str,
    listen_port: u16,
    allowed_ips: &str,
    dns: &str,
    address: &str,
    endpoint: &str,
) -> (r: Option<String>)
    ensures
        match cfg.mesh_private_key {
            None => r is None,
            Some(k) => r matches Some(t) && t@ == agent_config_text(
                k@,
                address@,
                listen_port,
                dns@,
                controller_public_key@,
                allowed_ips@,
                endpoint@,
            ),
        },
{
    let private_key = match &cfg.mesh_private_key {
        Some(k) => k,
        None => {
            return None;
        },
    };
    let port = crate::text::decimal(listen_port as u64);
    let t = String::from_str("[Interface]\n").concat("PrivateKey = ").concat(private_key.as_str()).concat(
        "\n",
    ).concat("Address = ").concat(address).concat("\n").concat("ListenPort = ").concat(
        port.as_str(),
    ).concat("\n").concat("DNS = ").concat(dns).concat("\n").concat("\n").concat("[Peer]\n").concat(
        "PublicKey = ",
    ).concat(controller_public_key).concat("\n").concat("AllowedIPs = ").concat(allowed_ips).concat(
        "\n",
    ).concat("Endpoint = ").concat(endpoint).concat("\n").concat("PersistentKeepalive = 25\n");
    Some(t)
}

} // verus!
