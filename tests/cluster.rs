use junknas::agent::{
    discover_drives, drain_order, get_cluster_state, local_chunks, nonzero_inode, peer_connections,
    port_shared, reservation_plan, role_from_name, select_available_port, subdirectories,
    update_config_from_heartbeat, AgentConfig, AgentState, DriveInfo, DriveReport, DriveUsage,
    NodeInfo,
};
use junknas::controller::{
    heartbeat, mesh_info, AgentRole, ControllerState, HeartbeatRequest, MeshInfo, MeshPeer,
    DEFAULT_ALLOCATION,
};
use junknas::drives::{data_mounts, is_swap, BlockDevice};
use junknas::fsmeta::{ChunkMeta, FsEntry, FsNodeType};
use junknas::natclass::{
    binding_request, classify_nat, compute_score, nat_type_from_name, nat_type_name,
    new_binding_request, parse_binding_response, select_connectivity_mode, ConnectivityMode,
    Endpoint, Ipv4, NatType, StunError,
};
use junknas::placement::{allocate_chunk, ClusterState, DriveStatus, NodeStatus, PlacementError};
use junknas::table::Table;

fn drive(id: &str, free: u64) -> DriveStatus {
    DriveStatus { drive_id: id.to_string(), free_bytes: free, allocated_bytes: free }
}

fn node(id: &str, score: u32, drives: Vec<DriveStatus>) -> NodeStatus {
    NodeStatus { node_id: id.to_string(), mesh_score: score, drives }
}

fn ep(a: u8, port: u16) -> Endpoint {
    Endpoint { ip: Ipv4 { a: 203, b: 0, c: 113, d: a }, port }
}

#[test]
fn placement_prefers_higher_rank_then_free_space() {
    let gib = 1u64 << 30;
    let c = ClusterState { nodes: vec![node("A", 900_000, vec![drive("a1", gib)]), node("B", 500_000, vec![drive("b1", gib)])] };
    for i in 0..16u64 {
        let m = allocate_chunk("/big", i, &c, "h").unwrap();
        assert_eq!(m.node_id, "A");
        assert_eq!(m.index, i);
        assert_eq!(m.chunk_hash, "h");
    }
    // A nearly full: 0.6*0.9 + 0.4*0.1 = 0.58 < 0.6*0.5 + 0.4*1.0 = 0.7
    let c2 = ClusterState { nodes: vec![node("A", 900_000, vec![drive("a1", gib / 10)]), node("B", 500_000, vec![drive("b1", gib)])] };
    assert_eq!(allocate_chunk("/big", 16, &c2, "h").unwrap().node_id, "B");
}

#[test]
fn placement_picks_drive_with_most_free_and_first_on_ties() {
    let c = ClusterState { nodes: vec![node("A", 500_000, vec![drive("x", 5), drive("y", 9), drive("z", 9)])] };
    assert_eq!(allocate_chunk("/f", 0, &c, "h").unwrap().drive_id, "y");
    let tie = ClusterState { nodes: vec![node("A", 500_000, vec![drive("a", 1)]), node("B", 500_000, vec![drive("b", 1)])] };
    assert_eq!(allocate_chunk("/f", 0, &tie, "h").unwrap().node_id, "A");
}

#[test]
fn placement_errors() {
    let empty = ClusterState { nodes: vec![] };
    assert_eq!(allocate_chunk("/f", 0, &empty, "h").unwrap_err(), PlacementError::NoNodes);
    let no_drives = ClusterState { nodes: vec![node("A", 900_000, vec![])] };
    assert_eq!(allocate_chunk("/f", 0, &no_drives, "h").unwrap_err(), PlacementError::NoDrives);
}

#[test]
fn placement_is_deterministic() {
    let c = ClusterState { nodes: vec![node("A", 300_000, vec![drive("a1", 7)]), node("B", 300_000, vec![drive("b1", 8)])] };
    let m1 = allocate_chunk("/p", 3, &c, "hh").unwrap();
    let m2 = allocate_chunk("/p", 3, &c, "hh").unwrap();
    assert_eq!((m1.index, m1.node_id, m1.drive_id, m1.chunk_hash), (m2.index, m2.node_id, m2.drive_id, m2.chunk_hash));
}

#[test]
fn nat_classification() {
    assert_eq!(classify_nat(ep(1, 5000), ep(1, 5000)), NatType::FullCone);
    assert_eq!(classify_nat(ep(1, 5000), ep(1, 5001)), NatType::PortRestrictedCone);
    assert_eq!(classify_nat(ep(1, 5000), ep(2, 5000)), NatType::Symmetric);
    assert_eq!(classify_nat(ep(1, 5000), ep(2, 6000)), NatType::Symmetric);
}

#[test]
fn connectivity_modes() {
    assert_eq!(select_connectivity_mode(&NatType::FullCone, &NatType::Symmetric), ConnectivityMode::Direct);
    assert_eq!(select_connectivity_mode(&NatType::Symmetric, &NatType::FullCone), ConnectivityMode::Direct);
    assert_eq!(select_connectivity_mode(&NatType::RestrictedCone, &NatType::PortRestrictedCone), ConnectivityMode::HolePunch);
    assert_eq!(select_connectivity_mode(&NatType::Symmetric, &NatType::RestrictedCone), ConnectivityMode::Relay);
    assert_eq!(select_connectivity_mode(&NatType::Unknown, &NatType::Symmetric), ConnectivityMode::Relay);
    assert_eq!(select_connectivity_mode(&NatType::Unknown, &NatType::RestrictedCone), ConnectivityMode::HolePunch);
    assert_eq!(select_connectivity_mode(&NatType::Unknown, &NatType::Unknown), ConnectivityMode::HolePunch);
}

#[test]
fn scores() {
    assert_eq!(compute_score(&NatType::FullCone, 0), 1_000_000);
    assert_eq!(compute_score(&NatType::Symmetric, 10_000), 0);
    assert_eq!(compute_score(&NatType::FullCone, 10_000), 400_000);
    assert_eq!(compute_score(&NatType::FullCone, 16_666), 40);
    assert_eq!(compute_score(&NatType::FullCone, 16_667), 0);
    assert_eq!(compute_score(&NatType::RestrictedCone, 2_500), 710_000);
    assert_eq!(compute_score(&NatType::Unknown, 5_000), 280_000);
    for t in [NatType::FullCone, NatType::RestrictedCone, NatType::PortRestrictedCone, NatType::Symmetric, NatType::Unknown] {
        for rtt in [0u64, 1, 4999, 5000, 5001, u64::MAX] {
            assert!(compute_score(&t, rtt) <= 1_000_000);
        }
    }
}

#[test]
fn nat_names_round_trip() {
    for t in [NatType::FullCone, NatType::RestrictedCone, NatType::PortRestrictedCone, NatType::Symmetric, NatType::Unknown] {
        assert_eq!(nat_type_from_name(&Some(nat_type_name(&t))), t);
    }
    assert_eq!(nat_type_from_name(&Some("fullcone".to_string())), NatType::Unknown);
    assert_eq!(nat_type_from_name(&None), NatType::Unknown);
}

#[test]
fn stun_request_and_response() {
    let txid: Vec<u8> = (1..=12).collect();
    let req = binding_request(&txid);
    assert_eq!(&req[..8], &[0x00, 0x01, 0x00, 0x00, 0x21, 0x12, 0xA4, 0x42]);
    assert_eq!(&req[8..], &txid[..]);
    let fresh = new_binding_request().unwrap();
    assert_eq!(fresh.len(), 20);
    assert_eq!(&fresh[..8], &req[..8]);

    let mut resp = vec![0x01, 0x01, 0x00, 0x14, 0x21, 0x12, 0xA4, 0x42];
    resp.extend_from_slice(&txid);
    // an unrelated attribute first, then XOR-MAPPED-ADDRESS
    resp.extend_from_slice(&[0x80, 0x22, 0x00, 0x04, b'a', b'b', b'c', b'd']);
    let port: u16 = 54321 ^ 0x2112;
    resp.extend_from_slice(&[0x00, 0x20, 0x00, 0x08, 0x00, 0x01, (port >> 8) as u8, port as u8]);
    resp.extend_from_slice(&[198 ^ 0x21, 51 ^ 0x12, 100 ^ 0xA4, 7 ^ 0x42]);
    let got = parse_binding_response(&resp).unwrap();
    assert_eq!(got, Endpoint { ip: Ipv4 { a: 198, b: 51, c: 100, d: 7 }, port: 54321 });

    assert_eq!(parse_binding_response(&resp[..19]).unwrap_err(), StunError::TooShort);
    assert_eq!(parse_binding_response(&resp[..28]).unwrap_err(), StunError::NoMapping);
    let mut v6 = resp.clone();
    v6[33] = 0x02;
    assert_eq!(parse_binding_response(&v6).unwrap_err(), StunError::NotIpv4);
}

fn beat(id: &str, role: AgentRole, score: Option<u32>) -> HeartbeatRequest {
    HeartbeatRequest {
        node_id: id.to_string(),
        hostname: "host".to_string(),
        nickname: "nick".to_string(),
        role,
        ip: Some("10.0.0.2".to_string()),
        mesh_port: Some(42000),
        drives: vec![],
        mesh_endpoint: Some(format!("10.0.0.2:{}", 42000)),
        mesh_public_key: Some(format!("pub-{id}")),
        mesh_private_key: Some(format!("priv-{id}")),
        mesh_score: score,
        mesh_nat_type: Some("FullCone".to_string()),
    }
}

fn state() -> ControllerState {
    ControllerState::new(80, 110, "fd44::".to_string(), "fd44::1".to_string(), "fd44::/64".to_string(), "controller".to_string(), None, None)
}

#[test]
fn heartbeat_defaults_and_sticky_eject() {
    let mut st = state();
    let r = heartbeat(&mut st, beat("A", AgentRole::Pure, Some(900_000)));
    assert_eq!(r.desired_allocation_bytes, DEFAULT_ALLOCATION);
    assert!(!r.eject);
    assert_eq!(r.mesh_public_key.as_deref(), Some("pub-A"));
    assert_eq!(r.mesh_private_key.as_deref(), Some("priv-A"));
    st.eject_flags.insert("A".to_string(), true);
    st.desired_allocations.insert("A".to_string(), 5);
    let r2 = heartbeat(&mut st, beat("A", AgentRole::Pure, Some(900_000)));
    assert!(r2.eject);
    assert_eq!(r2.desired_allocation_bytes, 5);
    assert!(heartbeat(&mut st, beat("A", AgentRole::Pure, Some(900_000))).eject);
    assert_eq!(st.nodes.len(), 1);
    assert_eq!(st.mesh_peers.len(), 1);
}

#[test]
fn samba_heartbeat_is_tracked_apart() {
    let mut st = state();
    let r = heartbeat(&mut st, beat("S", AgentRole::Samba, Some(100)));
    assert_eq!(r.desired_allocation_bytes, 0);
    assert!(!r.eject);
    assert_eq!(st.nodes.len(), 0);
    assert_eq!(st.mesh_peers.len(), 0);
    assert_eq!(st.samba_hosts.get("S").unwrap().status, "online");
}

#[test]
fn gateway_is_first_peer_of_highest_score() {
    let mut st = state();
    heartbeat(&mut st, beat("A", AgentRole::Pure, Some(500_000)));
    heartbeat(&mut st, beat("B", AgentRole::Pure, Some(900_000)));
    heartbeat(&mut st, beat("C", AgentRole::Pure, Some(900_000)));
    let info = mesh_info(&st);
    assert_eq!(info.peers.len(), 3);
    assert_eq!(info.gateway.as_deref(), Some("B"));
    let mut none = beat("D", AgentRole::Pure, None);
    none.mesh_public_key = None;
    none.mesh_private_key = None;
    heartbeat(&mut st, none);
    assert_eq!(mesh_info(&st).peers.len(), 3);
    assert_eq!(mesh_info(&state()).gateway, None);
}

fn mesh_peer(id: &str, score: u32, nat: Option<&str>) -> MeshPeer {
    MeshPeer { node_id: id.to_string(), endpoint: format!("{id}:1"), public_key: "k".to_string(), score, nat_type: nat.map(|s| s.to_string()) }
}

#[test]
fn drain_offers_chunks_to_best_peers_first() {
    let peers = vec![mesh_peer("A", 900_000, None), mesh_peer("B", 500_000, None), mesh_peer("C", 700_000, None), mesh_peer("D", 700_000, None)];
    let order: Vec<String> = drain_order(&peers, "A").into_iter().map(|p| p.node_id).collect();
    assert_eq!(order, vec!["C", "D", "B"]);

    let chunk = |i: u64, n: &str| ChunkMeta { index: i, node_id: n.to_string(), drive_id: "d".to_string(), chunk_hash: "h".to_string() };
    let file = FsEntry { path: "/x".into(), node_type: FsNodeType::File, size: 3, mode: 0o644, mtime: 0, ctime: 0, chunks: vec![chunk(0, "A"), chunk(1, "B"), chunk(2, "A")], children: vec![] };
    let dir = FsEntry { path: "/sub".into(), node_type: FsNodeType::Directory, size: 0, mode: 0o755, mtime: 0, ctime: 0, chunks: vec![], children: vec![] };
    let listing = vec![("x".to_string(), file), ("sub".to_string(), dir)];
    let mine = local_chunks(&listing, "A");
    assert_eq!(mine.len(), 2);
    assert_eq!(mine[0].0, "/x");
    assert_eq!(mine[0].1.index, 0);
    assert_eq!(mine[1].1.index, 2);
    assert_eq!(subdirectories(&listing), vec!["/sub".to_string()]);
}

#[test]
fn connections_skip_self_and_pick_modes() {
    let info = MeshInfo { peers: vec![mesh_peer("me", 1, Some("Symmetric")), mesh_peer("p", 2, Some("Symmetric")), mesh_peer("q", 3, Some("FullCone"))], gateway: None };
    let conns = peer_connections(&info, "me", NatType::PortRestrictedCone);
    assert_eq!(conns.len(), 2);
    assert_eq!(conns[0].node_id, "p");
    assert_eq!(conns[0].mode, ConnectivityMode::Relay);
    assert_eq!(conns[0].nat_type, NatType::Symmetric);
    assert_eq!(conns[1].mode, ConnectivityMode::Direct);
    assert_eq!(conns[1].endpoint, "q:1");
}

#[test]
fn reservations_split_desired_bytes() {
    assert_eq!(reservation_plan(10, &vec![0, 0, 0]), vec![4, 3, 3]);
    assert_eq!(reservation_plan(10, &vec![2, 5, 0]), vec![2, 0, 3]);
    assert!(reservation_plan(10, &vec![]).is_empty());
}

#[test]
fn ports_and_roles_and_inodes() {
    assert_eq!(select_available_port(80, &vec![]), Some(1024));
    assert_eq!(select_available_port(42000, &vec![42000, 42001]), Some(42002));
    assert_eq!(select_available_port(65535, &vec![65535]), Some(1024));
    assert_eq!(select_available_port(65534, &vec![65534, 65535, 1024]), Some(1025));
    let all: Vec<u16> = (1024..=65535).collect();
    assert_eq!(select_available_port(2000, &all), None);
    assert!(port_shared(42000, &vec![42000, 1, 42000]));
    assert!(!port_shared(42000, &vec![42000, 42001]));
    assert_eq!(role_from_name("samba"), AgentRole::Samba);
    assert_eq!(role_from_name("pure"), AgentRole::Pure);
    assert_eq!(role_from_name("other"), AgentRole::Pure);
    assert_eq!(AgentRole::Samba.suffix(), "samba");
    assert_eq!(AgentRole::Pure.suffix(), "pure");
    assert_eq!(nonzero_inode(0), 1);
    assert_eq!(nonzero_inode(42), 42);
}

#[test]
fn drive_reports_and_config_update() {
    let reports = discover_drives(&vec![DriveUsage { id: "d1".into(), path: "/m/d1".into(), data_bytes: 10, reserved_bytes: 90 }]);
    assert_eq!(reports[0].used_bytes, 10);
    assert_eq!(reports[0].allocated_bytes, 100);
    let mut cfg = AgentConfig {
        agent_id: "a".into(),
        role: AgentRole::Pure,
        ip: "0.0.0.0".into(),
        port: 42000,
        mesh_public_key: Some("old".into()),
        mesh_private_key: Some("oldp".into()),
        allocated_bytes: 0,
        drives: vec![],
    };
    let drives = vec![
        DriveReport { id: "d1".into(), path: "/p".into(), used_bytes: 1, allocated_bytes: 100 },
        DriveReport { id: "d2".into(), path: "/q".into(), used_bytes: 1, allocated_bytes: 50 },
    ];
    update_config_from_heartbeat(&mut cfg, &drives, Some("new".into()), None, "10.0.0.9".into());
    assert_eq!(cfg.allocated_bytes, 150);
    assert_eq!(cfg.drives, vec!["d1".to_string(), "d2".to_string()]);
    assert_eq!(cfg.ip, "10.0.0.9");
    assert_eq!(cfg.mesh_public_key.as_deref(), Some("new"));
    assert_eq!(cfg.mesh_private_key.as_deref(), Some("oldp"));
}

#[test]
fn cluster_state_from_agent_view() {
    let mut t = Table::new();
    t.insert("A".to_string(), NodeInfo { drives: vec![DriveInfo { id: "a1".into(), free_bytes: 5, allocated_bytes: 6 }], mesh_score: 700_000 });
    t.insert("B".to_string(), NodeInfo { drives: vec![], mesh_score: 1 });
    let c = get_cluster_state(&AgentState { node_info: t });
    assert_eq!(c.nodes.len(), 2);
    assert_eq!(c.nodes[0].node_id, "A");
    assert_eq!(c.nodes[0].drives[0].drive_id, "a1");
    assert_eq!(c.nodes[0].drives[0].free_bytes, 5);
    assert_eq!(c.nodes[1].mesh_score, 1);
}

fn dev(name: &str, kind: &str, mp: Option<&str>, size: Option<u64>, depth: usize) -> BlockDevice {
    BlockDevice { name: name.into(), mountpoint: mp.map(|s| s.to_string()), size, kind: kind.into(), depth }
}

#[test]
fn drive_discovery_from_block_devices() {
    let devs = vec![
        dev("sda", "disk", None, Some(100), 0),
        dev("sda1", "part", Some("/mnt/data"), Some(90), 1),
        dev("sda2", "part", Some(" [SWAP] "), Some(10), 1),
        dev("loop0", "loop", Some("/snap/a"), Some(5), 0),
        dev("loop0p1", "part", Some("/snap/b"), Some(5), 1),
        dev("sdb", "disk", Some("/mnt/empty"), Some(0), 0),
        dev("sdc", "disk", Some(""), Some(7), 0),
        dev("sdd", "disk", Some("/srv"), Some(7), 0),
    ];
    let mounts = data_mounts(&devs);
    assert_eq!(
        mounts,
        vec![
            ("drive-sda1".to_string(), "/mnt/data/junknas".to_string()),
            ("drive-sdd".to_string(), "/srv/junknas".to_string()),
        ]
    );
    assert!(is_swap("swap"));
    assert!(is_swap("\t[Swap]"));
    assert!(!is_swap("/swap"));
}
