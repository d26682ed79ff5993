use junknas::chunkio::{chunk_file_name, fetch_request, store_request_header};
use junknas::controller::{heartbeat, AgentRole, ControllerState, HeartbeatRequest, WireGuardKeyPair};
use junknas::dashboard::{
    alloc_samba_client_address, controller_endpoint, generate_samba_client_config, list_nodes,
    samba_metadata, upsert_wg_keys, SambaError,
};
use junknas::natclass::{is_punch_reply, punch_packet};
use junknas::requests::{parse_overlay_request, OverlayRequest};

fn state(prefix: &str, start: u8, end: u8) -> ControllerState {
    ControllerState::new(start, end, prefix.to_string(), "fd44::1".to_string(), "fd44::/64".to_string(), "controller".to_string(), Some("10.44.0.1".to_string()), Some(51820))
}

fn beat(id: &str, role: AgentRole, endpoint: Option<&str>, score: u32) -> HeartbeatRequest {
    HeartbeatRequest {
        node_id: id.to_string(),
        hostname: format!("{id}-host"),
        nickname: id.to_string(),
        role,
        ip: None,
        mesh_port: None,
        drives: vec![],
        mesh_endpoint: endpoint.map(|e| e.to_string()),
        mesh_public_key: Some(format!("pk-{id}")),
        mesh_private_key: None,
        mesh_score: Some(score),
        mesh_nat_type: None,
    }
}

#[test]
fn new_controller_lists_itself_as_samba_host() {
    let st = state("fd44::", 80, 110);
    let h = st.samba_hosts.get("controller").unwrap();
    assert_eq!(h.status, "online");
    assert_eq!(h.ip.as_deref(), Some("10.44.0.1"));
    assert_eq!(h.mesh_port, Some(51820));
}

#[test]
fn samba_addresses_cycle_through_the_pool() {
    let mut st = state("fd44::", 254, 255);
    assert_eq!(alloc_samba_client_address(&mut st).as_deref(), Some("fd44::fe/128"));
    assert_eq!(alloc_samba_client_address(&mut st).as_deref(), Some("fd44::ff/128"));
    assert_eq!(alloc_samba_client_address(&mut st).as_deref(), Some("fd44::fe/128"));
    let mut v4 = state("10.44.0", 80, 81);
    assert_eq!(alloc_samba_client_address(&mut v4).as_deref(), Some("10.44.0.80/32"));
    let mut bare = state("fd45:", 10, 10);
    assert_eq!(alloc_samba_client_address(&mut bare).as_deref(), Some("fd45:a/128"));
}

#[test]
fn samba_clients_exhaust_the_pool() {
    let mut st = state("10.44.0", 80, 81);
    assert_eq!(generate_samba_client_config(&mut st, "controller", None, None, None).unwrap_err(), SambaError::NoControllerKey);
    upsert_wg_keys(&mut st, WireGuardKeyPair { node_id: "controller".into(), public_key: "srvpub".into(), private_key: "srvpriv".into() });
    let a = generate_samba_client_config(&mut st, "controller", None, None, Some("9.9.9.9:51820".into())).unwrap();
    assert_eq!(a.address, "10.44.0.80/32");
    assert!(a.config.contains("Address = 10.44.0.80/32\n"));
    assert!(a.config.contains("PublicKey = srvpub\n"));
    assert!(a.config.contains("Endpoint = 9.9.9.9:51820\n"));
    let b = generate_samba_client_config(&mut st, "controller", None, None, None).unwrap();
    assert_eq!(b.address, "10.44.0.81/32");
    assert!(!b.config.contains("Endpoint"));
    assert_eq!(generate_samba_client_config(&mut st, "controller", None, None, None).unwrap_err(), SambaError::PoolExhausted);
    assert_eq!(st.samba_clients.len(), 2);
}

#[test]
fn controller_endpoint_prefers_overrides_then_best_peer() {
    let mut st = state("fd44::", 80, 110);
    assert_eq!(controller_endpoint(&st, None, None, None), None);
    heartbeat(&mut st, beat("A", AgentRole::Pure, Some("1.1.1.1:1"), 500));
    heartbeat(&mut st, beat("B", AgentRole::Pure, Some("2.2.2.2:2"), 900));
    heartbeat(&mut st, beat("C", AgentRole::Pure, Some("3.3.3.3:3"), 900));
    heartbeat(&mut st, beat("D", AgentRole::Pure, Some(""), 999));
    assert_eq!(controller_endpoint(&st, None, None, None).as_deref(), Some("3.3.3.3:3"));
    assert_eq!(controller_endpoint(&st, None, Some("s:1".into()), Some("o:1".into())).as_deref(), Some("s:1"));
    let md = samba_metadata(&st, "controller", None, None, Some("o:2".into()));
    assert_eq!(md.endpoint.as_deref(), Some("o:2"));
    assert_eq!(md.controller_public_key, None);
    assert_eq!(md.dns, "fd44::1");
    assert_eq!(md.allowed_ips, "fd44::/64");
}

#[test]
fn dashboard_node_listing_merges_keys() {
    let mut st = state("fd44::", 80, 110);
    heartbeat(&mut st, beat("A", AgentRole::Pure, Some("1.1.1.1:1"), 500));
    heartbeat(&mut st, beat("S", AgentRole::Samba, None, 1));
    upsert_wg_keys(&mut st, WireGuardKeyPair { node_id: "A".into(), public_key: "kp".into(), private_key: "ks".into() });
    let nodes = list_nodes(&st);
    assert_eq!(nodes.len(), 1);
    assert_eq!(nodes[0].node_id, "A");
    assert_eq!(nodes[0].mesh_endpoint.as_deref(), Some("1.1.1.1:1"));
    assert_eq!(nodes[0].mesh_public_key.as_deref(), Some("pk-A"));
    assert_eq!(nodes[0].mesh_private_key.as_deref(), Some("ks"));
    assert_eq!(nodes[0].mesh_score, Some(500));
}

#[test]
fn overlay_names_and_punch_packets() {
    assert_eq!(chunk_file_name(12), "chunk_12");
    assert_eq!(fetch_request("/a b", 3), "FETCH /a b 3");
    assert_eq!(store_request_header("/x", 1, "d1", "ff", 65536), "STORE /x 1 d1 ff 65536\n");
    assert_eq!(punch_packet(), b"junknas-holepunch".to_vec());
    assert!(is_punch_reply(b"junknas-holepunch"));
    assert!(!is_punch_reply(b"junknas-holepunc"));
    assert!(!is_punch_reply(b"junknas-holepunchX"));
}

#[test]
fn overlay_requests_round_trip() {
    match parse_overlay_request(fetch_request("/a b/c", 42).as_bytes()) {
        Some(OverlayRequest::Fetch { path, index }) => {
            assert_eq!(path, "/a b/c");
            assert_eq!(index, 42);
        }
        other => panic!("unexpected {other:?}"),
    }
    let mut pkt = store_request_header("/x y", 3, "d1", "abcd", 4).into_bytes();
    pkt.extend_from_slice(&[1, 2, 0x0a, 4]);
    match parse_overlay_request(&pkt) {
        Some(OverlayRequest::Store { path, index, drive_id, hash, data }) => {
            assert_eq!((path.as_str(), index, drive_id.as_str(), hash.as_str()), ("/x y", 3, "d1", "abcd"));
            assert_eq!(data, vec![1, 2, 0x0a, 4]);
        }
        other => panic!("unexpected {other:?}"),
    }
    pkt.pop();
    assert!(parse_overlay_request(&pkt).is_none());
    assert!(parse_overlay_request(b"FETCH /p x").is_none());
    assert!(parse_overlay_request(b"FETCH").is_none());
    assert!(parse_overlay_request(b"HELLO /p 1").is_none());
    assert!(parse_overlay_request(&[0x46, 0x45, 0xff]).is_none());
}
