use junknas::controller::{
    heartbeat, AgentRole, ControllerState, HeartbeatRequest, MeshPeer, NodeState, SambaClientPeer,
    WireGuardKeyPair,
};
use junknas::wgconf::{
    advertised_port, compute_endpoint, format_endpoint, generate_ephemeral_keypair,
    generate_keypair, render, render_samba_client_config, split_endpoint,
};

fn peer(endpoint: &str) -> MeshPeer {
    MeshPeer {
        node_id: "n1".to_string(),
        endpoint: endpoint.to_string(),
        public_key: "abc".to_string(),
        score: 1_000_000,
        nat_type: None,
    }
}

#[test]
fn endpoint_override_preserves_port() {
    let published = "192.168.1.5:51820";
    let overridden = compute_endpoint(None, &peer(published), Some("203.0.113.9")).unwrap();
    assert_eq!(overridden, "203.0.113.9:51820");
}

#[test]
fn format_endpoint_brackets_ipv6() {
    assert_eq!(format_endpoint("2001:db8::1", 7777), "[2001:db8::1]:7777");
}

#[test]
fn format_endpoint_plain_and_bracketed_hosts() {
    assert_eq!(format_endpoint("10.0.0.1", 51820), "10.0.0.1:51820");
    assert_eq!(format_endpoint("[2001:db8::1]", 80), "[2001:db8::1]:80");
    assert_eq!(format_endpoint("h", 0), "h:0");
}

#[test]
fn split_endpoint_forms() {
    assert_eq!(split_endpoint("10.0.0.1:51820"), Some(("10.0.0.1".to_string(), 51820)));
    assert_eq!(split_endpoint("[2001:db8::1]:7777"), Some(("2001:db8::1".to_string(), 7777)));
    assert_eq!(split_endpoint("host:+80"), Some(("host".to_string(), 80)));
    assert_eq!(split_endpoint("host:65536"), None);
    assert_eq!(split_endpoint("host:"), None);
    assert_eq!(split_endpoint("host"), None);
    assert_eq!(split_endpoint("]:80"), None);
}

#[test]
fn compute_endpoint_falls_back_to_node_address() {
    let node = NodeState {
        node_id: "n1".to_string(),
        hostname: "h".to_string(),
        nickname: "h".to_string(),
        drives: vec![],
        role: AgentRole::Pure,
        ip: Some("10.1.2.3".to_string()),
        mesh_port: Some(42000),
        mesh_endpoint: None,
        mesh_public_key: None,
        mesh_private_key: None,
        mesh_score: None,
        mesh_nat_type: None,
    };
    assert_eq!(compute_endpoint(Some(&node), &peer(""), None), Some("10.1.2.3:42000".to_string()));
    assert_eq!(compute_endpoint(None, &peer(""), None), None);
    assert_eq!(
        compute_endpoint(Some(&node), &peer(""), Some("fd44::9")),
        Some("[fd44::9]:42000".to_string())
    );
}

#[test]
fn samba_client_config_text() {
    let with_endpoint = render_samba_client_config("priv", "fd44::50/128", "fd44::1", "fd44::/64", Some("1.2.3.4:51820"), "srv");
    assert_eq!(
        with_endpoint,
        "[Interface]\nPrivateKey = priv\nAddress = fd44::50/128\nDNS = fd44::1\n\n[Peer]\nPublicKey = srv\nAllowedIPs = fd44::/64\nEndpoint = 1.2.3.4:51820\nPersistentKeepalive = 25\n"
    );
    let without = render_samba_client_config("priv", "a", "d", "ips", None, "srv");
    assert_eq!(without, "[Interface]\nPrivateKey = priv\nAddress = a\nDNS = d\n\n[Peer]\nPublicKey = srv\nAllowedIPs = ips\n");
}

#[test]
fn advertised_port_order_and_cap() {
    assert_eq!(advertised_port(None, None, None), 51820);
    assert_eq!(advertised_port(Some("7000"), Some("8000"), None), 7000);
    assert_eq!(advertised_port(Some("x"), Some("8000"), Some("9000")), 8000);
    assert_eq!(advertised_port(None, None, Some("70000")), 65535);
}

#[test]
fn keypairs_are_base64_and_fresh() {
    let (private_a, public_a) = generate_ephemeral_keypair().unwrap();
    let (private_b, _) = generate_ephemeral_keypair().unwrap();
    assert_eq!(private_a.len(), 44);
    assert_eq!(public_a.len(), 44);
    assert!(private_a.ends_with('='));
    assert_ne!(private_a, public_a);
    assert_ne!(private_a, private_b);
    let kp = generate_keypair("node-7").unwrap();
    assert_eq!(kp.node_id, "node-7");
    assert_eq!(kp.public_key.len(), 44);
}

#[test]
fn controller_config_sorts_peers_and_clients() {
    let mut st = ControllerState::new(80, 110, "fd44::".into(), "fd44::1".into(), "fd44::/64".into(), "controller".into(), None, None);
    assert!(render(&st, "controller", "wg0".into(), "/etc/wg0.conf".into(), None, "fd44::/64", None, &vec![]).is_none());
    st.wg_keys.insert("controller".into(), WireGuardKeyPair { node_id: "controller".into(), public_key: "cpub".into(), private_key: "cpriv".into() });
    for (id, ep) in [("zeta", "10.0.0.9:51820"), ("alpha", ""), ("controller", "1.1.1.1:1")] {
        heartbeat(&mut st, HeartbeatRequest {
            node_id: id.into(),
            hostname: id.into(),
            nickname: id.into(),
            role: AgentRole::Pure,
            ip: None,
            mesh_port: None,
            drives: vec![],
            mesh_endpoint: Some(ep.into()),
            mesh_public_key: Some(format!("pk-{id}")),
            mesh_private_key: None,
            mesh_score: Some(1),
            mesh_nat_type: None,
        });
    }
    st.samba_clients.insert("fd44::51/128".into(), SambaClientPeer { public_key: "s2".into(), address: "fd44::51/128".into() });
    st.samba_clients.insert("fd44::50/128".into(), SambaClientPeer { public_key: "s1".into(), address: "fd44::50/128".into() });
    let addrs = vec!["fd44::2/64".to_string(), "10.44.0.1/32".to_string(), "fd44::2/64".to_string()];
    let cfg = render(&st, "controller", "wg0".into(), "/etc/wg0.conf".into(), None, "fd44::/64", Some(51821), &addrs).unwrap();
    assert_eq!(cfg.interface, "wg0");
    assert_eq!(cfg.path, "/etc/wg0.conf");
    assert_eq!(
        cfg.contents,
        "[Interface]\nPrivateKey = cpriv\nListenPort = 51821\nAddress = 10.44.0.1/32\nAddress = fd44::2/64\n\
         \n[Peer]\nPublicKey = pk-alpha\nAllowedIPs = fd44::/64\n\
         \n[Peer]\nPublicKey = pk-zeta\nAllowedIPs = fd44::/64\nEndpoint = 10.0.0.9:51820\nPersistentKeepalive = 25\n\
         \n[Peer]\nPublicKey = s1\nAllowedIPs = fd44::50/128\n\
         \n[Peer]\nPublicKey = s2\nAllowedIPs = fd44::51/128\n"
    );
    let over = render(&st, "controller", "wg0".into(), "p".into(), Some("fd44::9"), "x", None, &vec![]).unwrap();
    assert!(over.contents.contains("ListenPort = 51820\n"));
    assert!(over.contents.contains("Endpoint = [fd44::9]:51820\n"));
    assert!(over.contents.contains("PublicKey = pk-alpha\nAllowedIPs = x\nEndpoint = \n"));
}
