use znodes::addr::NodeAddr;
use znodes::classify::{classify_client, client_type, is_relevant_zcash_node, ClientKind};
use znodes::network::{KnownNetwork, KnownNode};
use znodes::protocol::{build_targets, select_candidates, stale_connected};
use znodes::rpc::{build_nodes_response, compute_stats, get_tip};
use znodes::summary::{build_summary, NetworkType};

fn addr(d: u8, port: u16) -> NodeAddr {
    NodeAddr::v4(10, 0, 0, d, port)
}

fn node_with(agent: Option<&str>, height: Option<i32>, last: Option<u64>) -> KnownNode {
    let mut n = KnownNode::default();
    n.user_agent = agent.map(|s| s.to_string());
    n.start_height = height;
    n.last_connected = last;
    if height.is_some() {
        n.protocol_version = Some(170_100);
    }
    n
}

#[test]
fn magicbean_major_boundary() {
    let (t, flux) = client_type("/MagicBean:5.9.9/");
    assert_eq!(t, "zcashd");
    assert!(!flux);
    let (t, flux) = client_type("/MagicBean:6.0.0/");
    assert_eq!(t, "flux");
    assert!(flux);
}

#[test]
fn classify_client_matches_client_type() {
    let (t, flux) = classify_client("/MagicBean:6.0.0/");
    assert_eq!(t, "flux");
    assert!(flux);
    let (t, flux) = classify_client("/MagicBean:5.9.9/");
    assert_eq!(t, "zcashd");
    assert!(!flux);
    let (t, flux) = classify_client("/MagicBean:5.4.2-flux/");
    assert_eq!(t, "flux");
    assert!(flux);
}

#[test]
fn flux_flag_matches_type_name() {
    for ua in ["/MagicBean:5.4.2/", "/MagicBean:6.0.0/", "/Zebra:1.0.0/", "/Foo/", "FLUXnode"] {
        let (t, flux) = client_type(ua);
        assert_eq!(flux, t == "flux");
        let (t, flux) = classify_client(ua);
        assert_eq!(flux, t == "flux");
    }
}

#[test]
fn lowercase_reaches_classification() {
    let (t, flux) = client_type("/FLUX/");
    assert_eq!(t, "flux");
    assert!(flux);
    let (t, _) = client_type("/MAGICBEAN:5.0.0/");
    assert_eq!(t, "zcashd");
}

#[test]
fn relevance_height_boundaries() {
    let n = node_with(Some("/MagicBean:5.4.2/"), Some(2_499_999), Some(1));
    assert!(!is_relevant_zcash_node(&n, 2_500_000));
    let n = node_with(Some("/MagicBean:5.4.2/"), Some(2_500_000), Some(1));
    assert!(is_relevant_zcash_node(&n, 2_500_000));
    let z = node_with(Some("/Zebra:1.0.0/"), Some(2_500_000), Some(1));
    assert!(is_relevant_zcash_node(&z, 2_520_000));
    assert!(!is_relevant_zcash_node(&z, 2_520_001));
    let m = node_with(Some("/MagicBean:5.4.2/"), Some(2_500_000), Some(1));
    assert!(is_relevant_zcash_node(&m, 2_600_000));
    assert!(!is_relevant_zcash_node(&m, 2_600_001));
    let f = node_with(Some("/MagicBean:6.0.0/"), Some(2_700_000), Some(1));
    assert!(!is_relevant_zcash_node(&f, 2_700_000));
    let none = node_with(None, Some(2_700_000), Some(1));
    assert!(!is_relevant_zcash_node(&none, 2_700_000));
}

#[test]
fn tip_estimate_needs_strictly_higher_heights() {
    let rows = vec![(addr(1, 8233), node_with(Some("/MagicBean:5.4.2/"), Some(2_500_000), None))];
    assert_eq!(get_tip(&rows), 2_500_000);
    let rows = vec![(addr(1, 8233), node_with(Some("/MagicBean:5.4.2/"), Some(2_600_000), None))];
    assert_eq!(get_tip(&rows), 2_600_000);
    let rows: Vec<(NodeAddr, KnownNode)> = Vec::new();
    assert_eq!(get_tip(&rows), 2_500_000);
}

#[test]
fn tip_estimate_is_95th_percentile() {
    let mut rows = Vec::new();
    for i in 0..10 {
        rows.push((
            addr(i as u8 + 1, 8233),
            node_with(Some("/MagicBean:5.4.2/"), Some(2_600_000 + i * 1000), None),
        ));
    }
    assert_eq!(get_tip(&rows), 2_609_000);
}

#[test]
fn classification_matrix() {
    let rows = vec![
        (addr(1, 8233), node_with(Some("/MagicBean:5.4.2/"), Some(2_700_000), Some(1))),
        (addr(2, 8233), node_with(Some("/MagicBean:6.0.0/"), Some(2_700_000), Some(1))),
        (addr(3, 8233), node_with(Some("/Zebra:1.0.0/"), Some(2_700_000), Some(1))),
        (addr(4, 8233), node_with(Some("/MagicBean:5.4.2-flux/"), Some(2_700_000), Some(1))),
        (addr(5, 8233), node_with(Some("/Foo/"), Some(2_700_000), Some(1))),
    ];
    let stats = compute_stats(&rows, 60);
    assert_eq!(stats.num_known_nodes, 5);
    assert_eq!(stats.num_contacted_nodes, 5);
    assert_eq!(stats.num_zcashd_nodes, 1);
    assert_eq!(stats.num_zebra_nodes, 1);
    assert_eq!(stats.num_flux_nodes, 2);
    assert_eq!(stats.num_other_nodes, 1);
    assert_eq!(stats.num_relevant_zcash_nodes, 2);
    assert_eq!(stats.tip_height_estimate, 2_700_000);
    assert_eq!(stats.crawler_runtime_secs, 60);
}

#[test]
fn getnodes_filters_and_orders() {
    let rows = vec![
        (addr(1, 8233), node_with(Some("/MagicBean:5.4.2/"), Some(2_700_000), Some(100))),
        (addr(2, 8233), node_with(Some("/MagicBean:6.0.0/"), Some(2_700_000), Some(100))),
        (addr(3, 8233), node_with(Some("/Zebra:1.0.0/"), Some(2_700_000), Some(200))),
        (addr(4, 8233), node_with(Some("/Foo/"), Some(2_700_000), Some(100))),
        (addr(5, 8233), node_with(None, Some(2_700_000), Some(100))),
    ];
    let resp = build_nodes_response(&rows, 60, 300, false);
    assert_eq!(resp.nodes.len(), 2);
    assert!(resp.nodes[0].is_relevant);
    assert!(resp.nodes[1].is_relevant);
    assert_eq!(resp.nodes[0].last_seen_secs, 100);
    assert_eq!(resp.nodes[1].last_seen_secs, 200);
    assert_eq!(resp.nodes[0].client_type, ClientKind::Zebra);
    assert_eq!(resp.nodes[1].client_type, ClientKind::Zcashd);
    assert!(!resp.nodes[0].is_flux);
    let all = build_nodes_response(&rows, 60, 300, true);
    assert_eq!(all.nodes.len(), 4);
}

#[test]
fn summary_counts_and_adjacency() {
    let mut net = KnownNetwork::new();
    let a = addr(1, 8233);
    let b = addr(2, 9999);
    let c = addr(3, 8233);
    net.register_node(a);
    net.add_addrs(a, &vec![b, c], 10);
    net.record_dial_result(a, 20, 5, true);
    net.record_dial_result(b, 21, 5, true);
    let sum = build_summary(&net, 77);
    assert_eq!(sum.num_known_nodes, 3);
    assert_eq!(sum.num_good_nodes, 2);
    assert!(sum.num_good_nodes <= sum.num_known_nodes);
    assert_eq!(sum.num_known_connections, 2);
    assert_eq!(sum.node_addrs.len(), 2);
    assert_eq!(sum.node_network_types.len(), sum.node_addrs.len());
    assert_eq!(sum.nodes_indices.len(), sum.node_addrs.len());
    assert_eq!(sum.crawler_runtime_secs, 77);
    assert_eq!(sum.node_addrs[0], a);
    assert_eq!(sum.node_addrs[1], b);
    assert_eq!(sum.nodes_indices[0], vec![1]);
    assert_eq!(sum.nodes_indices[1], vec![0]);
}

#[test]
fn summary_network_types() {
    let mut net = KnownNetwork::new();
    let a = addr(1, 8233);
    let b = addr(2, 9999);
    let c = addr(3, 9999);
    let d = addr(4, 8233);
    net.register_node(a);
    net.register_node(b);
    net.register_node(c);
    net.register_node(d);
    for (who, agent, h) in [
        (a, "/Foo/", 2_100_000),
        (b, "/MagicBean:5.4.2/", 2_100_000),
        (c, "/Foo/", 2_100_000),
        (d, "/MagicBean:6.0.0/", 2_700_000),
    ] {
        net.record_dial_result(who, 20, 5, true);
        net.record_version(who, 1, agent.to_string(), 0, h);
    }
    let sum = build_summary(&net, 0);
    assert_eq!(sum.node_network_types[0], NetworkType::Zcash);
    assert_eq!(sum.node_network_types[1], NetworkType::Zcash);
    assert_eq!(sum.node_network_types[2], NetworkType::Unknown);
    assert_eq!(sum.node_network_types[3], NetworkType::Unknown);
    assert_eq!(sum.num_versions, 4);
    assert_eq!(sum.protocol_versions, vec![(1, 4)]);
    let mut agents: Vec<(String, usize)> = sum.user_agents.clone();
    agents.sort();
    assert_eq!(
        agents,
        vec![
            ("/Foo/".to_string(), 2),
            ("/MagicBean:5.4.2/".to_string(), 1),
            ("/MagicBean:6.0.0/".to_string(), 1),
        ]
    );
}

#[test]
fn handshake_payload_is_fixed() {
    let hello = znodes::protocol::crawler_version();
    assert_eq!(hello.user_agent, "/MagicBean:5.4.2/");
    assert_eq!(hello.start_height, 3_150_000);
    assert!(hello.relay);
    assert_eq!(hello.listen_addr, NodeAddr::v4(127, 0, 0, 1, 0));
}

#[test]
fn scheduler_partitions_and_clamps() {
    let rows = vec![
        (addr(1, 8233), node_with(None, None, None)),
        (addr(2, 8233), node_with(Some("/MagicBean:5.4.2/"), Some(2_700_000), Some(100))),
        (addr(3, 8233), node_with(None, None, Some(480))),
        (addr(4, 8233), node_with(Some("/Zebra:1.0.0/"), Some(2_700_000), Some(460))),
    ];
    let (need, have) = select_candidates(&rows, 500);
    assert_eq!(need.len(), 1);
    assert_eq!(need[0], addr(1, 8233));
    assert_eq!(have.len(), 1);
    assert_eq!(have[0], addr(2, 8233));
    let targets = build_targets(need, have);
    assert_eq!(targets.len(), 2);
    assert!(targets.contains(&addr(1, 8233)));
    assert!(targets.contains(&addr(2, 8233)));
}

#[test]
fn reaper_picks_stale_connected_peers() {
    let mut fresh = node_with(Some("/MagicBean:5.4.2/"), None, Some(450));
    fresh.state = znodes::network::ConnectionState::Connected;
    let mut stale = node_with(Some("/MagicBean:5.4.2/"), None, Some(400));
    stale.state = znodes::network::ConnectionState::Connected;
    let disconnected = node_with(None, None, Some(10));
    let rows = vec![
        (addr(1, 8233), fresh),
        (addr(2, 8233), stale),
        (addr(3, 8233), disconnected),
    ];
    let reap = stale_connected(&rows, 500);
    assert_eq!(reap.len(), 1);
    assert_eq!(reap[0], addr(2, 8233));
}
