use znodes::addr::NodeAddr;
use znodes::network::{ConnectionState, KnownNetwork, KnownNode};
use znodes::protocol::{process_message, should_connect, Message, Response};

fn addr(d: u8, port: u16) -> NodeAddr {
    NodeAddr::v4(127, 0, 0, d, port)
}

#[test]
fn register_and_count() {
    let mut net = KnownNetwork::new();
    assert_eq!(net.num_nodes(), 0);
    net.register_node(addr(1, 8233));
    net.register_node(addr(1, 8233));
    assert_eq!(net.num_nodes(), 1);
    let rec = &net.nodes()[0].1;
    assert_eq!(rec.connection_failures, 0);
    assert!(rec.last_connected.is_none());
    assert_eq!(rec.state, ConnectionState::Disconnected);
}

#[test]
fn dial_failures_strictly_increase_and_reset() {
    let mut net = KnownNetwork::new();
    let a = addr(1, 8233);
    net.register_node(a);
    net.record_dial_result(a, 10, 5, false);
    assert_eq!(net.nodes()[0].1.connection_failures, 1);
    net.record_dial_result(a, 20, 5, false);
    assert_eq!(net.nodes()[0].1.connection_failures, 2);
    net.record_dial_result(a, 30, 7, true);
    let rec = net.nodes()[0].1.clone();
    assert_eq!(rec.connection_failures, 0);
    assert_eq!(rec.last_connected, Some(30));
    assert_eq!(rec.handshake_time, Some(7));
    assert_eq!(rec.state, ConnectionState::Connected);
}

#[test]
fn last_connected_monotone() {
    let mut net = KnownNetwork::new();
    let a = addr(1, 8233);
    net.register_node(a);
    net.record_dial_result(a, 100, 5, true);
    assert_eq!(net.nodes()[0].1.last_connected, Some(100));
    net.record_dial_result(a, 150, 5, false);
    assert_eq!(net.nodes()[0].1.last_connected, Some(100));
    net.record_dial_result(a, 200, 5, true);
    assert_eq!(net.nodes()[0].1.last_connected, Some(200));
}

#[test]
fn add_addrs_creates_nodes_and_edges() {
    let mut net = KnownNetwork::new();
    let p = addr(1, 8233);
    let n1 = addr(2, 8233);
    let n2 = addr(3, 8233);
    net.add_addrs(p, &vec![n1, n2], 50);
    assert_eq!(net.num_nodes(), 3);
    assert_eq!(net.num_connections(), 2);
    assert!(net.contains_node(p));
    assert!(net.contains_node(n1));
    assert!(net.contains_node(n2));
    assert!(net.contains_edge(p, n1));
    assert!(net.contains_edge(p, n2));
    assert!(!net.contains_edge(n1, p));
}

#[test]
fn add_addrs_twice_is_idempotent_on_records() {
    let mut net = KnownNetwork::new();
    let p = addr(1, 8233);
    let n1 = addr(2, 8233);
    net.add_addrs(p, &vec![n1], 50);
    let before = net.nodes().clone();
    net.add_addrs(p, &vec![n1], 90);
    let after = net.nodes().clone();
    assert_eq!(before.len(), after.len());
    for (b, a) in before.iter().zip(after.iter()) {
        assert_eq!(b.0, a.0);
        assert_eq!(b.1.connection_failures, a.1.connection_failures);
        assert_eq!(b.1.last_connected, a.1.last_connected);
        assert_eq!(b.1.user_agent, a.1.user_agent);
    }
    assert_eq!(net.num_connections(), 1);
    assert_eq!(net.connections()[0].last_seen, 90);
}

#[test]
fn remove_old_connections_drops_stale_edges() {
    let mut net = KnownNetwork::new();
    let p = addr(1, 8233);
    let n1 = addr(2, 8233);
    let n2 = addr(3, 8233);
    net.add_addrs(p, &vec![n1], 100);
    net.add_addrs(p, &vec![n2], 500);
    net.remove_old_connections(700, 600);
    assert!(net.contains_edge(p, n1));
    assert!(net.contains_edge(p, n2));
    net.remove_old_connections(701, 600);
    assert!(!net.contains_edge(p, n1));
    assert!(net.contains_edge(p, n2));
    assert_eq!(net.num_nodes(), 3);
}

#[test]
fn addr_echoing_self_does_not_disconnect() {
    let mut net = KnownNetwork::new();
    let src = addr(1, 8233);
    net.register_node(src);
    let responses = process_message(&mut net, src, Message::Addr(vec![src]), 10);
    assert!(responses.is_empty());
    let responses = process_message(&mut net, src, Message::Addr(vec![]), 10);
    assert!(responses.is_empty());
}

#[test]
fn addr_with_new_peers_disconnects() {
    let mut net = KnownNetwork::new();
    let src = addr(1, 8233);
    let other = addr(2, 8233);
    net.register_node(src);
    let responses = process_message(&mut net, src, Message::Addr(vec![other]), 10);
    assert_eq!(responses.len(), 1);
    assert!(matches!(responses[0], Response::Disconnect));
    assert!(net.contains_node(other));
    assert!(net.contains_edge(src, other));
    let rec = net
        .nodes()
        .iter()
        .find(|p| p.0 == src)
        .map(|p| p.1.clone())
        .unwrap();
    assert_eq!(rec.state, ConnectionState::Disconnected);
}

#[test]
fn ping_answered_with_pong() {
    let mut net = KnownNetwork::new();
    let src = addr(1, 8233);
    net.register_node(src);
    let responses = process_message(&mut net, src, Message::Ping(42), 10);
    assert_eq!(responses.len(), 1);
    assert!(matches!(responses[0], Response::Send(Message::Pong(42))));
}

#[test]
fn version_recorded_and_answered() {
    let mut net = KnownNetwork::new();
    let src = addr(1, 8233);
    net.register_node(src);
    let payload = znodes::protocol::VersionPayload {
        version: 170100,
        user_agent: String::from("/MagicBean:5.4.2/"),
        services: 1,
        start_height: 2_700_000,
    };
    let responses = process_message(&mut net, src, Message::Version(payload), 10);
    assert_eq!(responses.len(), 2);
    assert!(matches!(responses[0], Response::Send(Message::Verack)));
    assert!(matches!(responses[1], Response::Send(Message::GetAddr)));
    let rec = net.nodes()[0].1.clone();
    assert_eq!(rec.protocol_version, Some(170100));
    assert_eq!(rec.user_agent.as_deref(), Some("/MagicBean:5.4.2/"));
    assert_eq!(rec.services, Some(1));
    assert_eq!(rec.start_height, Some(2_700_000));
}

#[test]
fn should_connect_respects_cap() {
    let mut net = KnownNetwork::new();
    let a = addr(1, 8233);
    net.register_node(a);
    assert!(should_connect(&net, a, 0, 0, false, false));
    assert!(!should_connect(&net, a, 3500, 0, false, false));
    assert!(!should_connect(&net, a, 3499, 1, false, false));
    assert!(should_connect(&net, a, 3499, 0, false, false));
    assert!(!should_connect(&net, a, 0, 0, true, false));
    assert!(!should_connect(&net, a, 0, 0, false, true));
    assert!(!should_connect(&net, addr(9, 1), 0, 0, false, false));
}

#[test]
fn seed_port_override_split() {
    let (h, p) = znodes::seeds::split_seed_host("dnsseed.example.org:18233", 8233);
    assert_eq!(h, "dnsseed.example.org");
    assert_eq!(p, 18233);
    let (h, p) = znodes::seeds::split_seed_host("dnsseed.example.org", 8233);
    assert_eq!(h, "dnsseed.example.org");
    assert_eq!(p, 8233);
    let (h, p) = znodes::seeds::split_seed_host("dnsseed.example.org:notaport", 8233);
    assert_eq!(h, "dnsseed.example.org:notaport");
    assert_eq!(p, 8233);
    let (h, p) = znodes::seeds::split_seed_host("dnsseed.example.org:99999", 8233);
    assert_eq!(h, "dnsseed.example.org:99999");
    assert_eq!(p, 8233);
}
