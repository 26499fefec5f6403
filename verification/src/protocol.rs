//! The per-connection protocol decisions and the crawl scheduling rules.
//!
//! The transport dials, reads and writes; the functions here decide what
//! to answer, what to record, when a connection has served its purpose,
//! and which peers to dial next.

use vstd::prelude::*;

use crate::addr::NodeAddr;
use crate::network::{fresh_node, ConnectionState, KnownNetwork, KnownNode};
use crate::rpc::count_where;

verus! {

/// How many candidates each scheduler tick may try to dial.
pub const NUM_CONN_ATTEMPTS_PERIODIC: usize = 2000;

/// The transport-level cap on simultaneous connections.
pub const MAX_CONCURRENT_CONNECTIONS: u16 = 3500;

/// A peer contacted within this many seconds is not dialed again.
pub const RECONNECT_INTERVAL_SECS: u64 = 45;

/// A connection older than this without a usable ADDR is torn down.
pub const MAX_WAIT_FOR_ADDR_SECS: u64 = 90;

/// Hard deadline for dial plus handshake, in milliseconds.
pub const HANDSHAKE_TIMEOUT_MS: u64 = 2000;

/// The user agent the crawler advertises when impersonating a full node.
pub const CRAWLER_USER_AGENT: &'static str = "/MagicBean:5.4.2/";

/// The block height the crawler advertises.
pub const CRAWLER_START_HEIGHT: i32 = 3_150_000;

/// What the crawler's own handshake `Version` message advertises: it
/// impersonates a full node and does not actually listen.
pub struct HandshakeVersion {
    pub user_agent: String,
    pub start_height: i32,
    pub relay: bool,
    /// The advertised listener; the loopback address, port zero.
    pub listen_addr: NodeAddr,
}

/// The payload of the Version message the crawler sends on every new
/// connection: the impersonated agent and height, relaying on, loopback
/// listener.
pub fn crawler_version() -> (r: HandshakeVersion)
    ensures
        r.user_agent@ == CRAWLER_USER_AGENT@,
        r.start_height == CRAWLER_START_HEIGHT,
        r.relay == true,
        r.listen_addr == (NodeAddr {
            ip: crate::addr::IpRepr::V4(crate::addr::ipv4_value(127, 0, 0, 1)),
            port: 0,
        }),
{
    HandshakeVersion {
        user_agent: CRAWLER_USER_AGENT.to_owned(),
        start_height: CRAWLER_START_HEIGHT,
        relay: true,
        listen_addr: NodeAddr::v4(127, 0, 0, 1, 0),
    }
}

/// The fields of a peer's `Version` message that the crawler records.
pub struct VersionPayload {
    pub version: u32,
    pub user_agent: String,
    pub services: u64,
    pub start_height: i32,
}

/// The wire messages the crawler consumes or produces, as plain values;
/// framing belongs to the transport. Unhandled kinds arrive as `Other`.
pub enum Message {
    Version(VersionPayload),
    Verack,
    GetAddr,
    Addr(Vec<NodeAddr>),
    Ping(u64),
    Pong(u64),
    GetHeaders,
    Headers,
    GetData(Vec<u8>),
    NotFound(Vec<u8>),
    Other,
}

/// What the caller must do after a message was processed.
pub enum Response {
    Send(Message),
    Disconnect,
}

/// An ADDR payload ends the connection unless it only echoes the sender's
/// own address (or is empty).
pub open spec fn addr_ends_connection(list: Seq<NodeAddr>, src: NodeAddr) -> bool {
    list.len() > 1 || (list.len() == 1 && list[0] != src)
}

/// Processes one inbound message from `src` at time `now`: records what
/// the message teaches, and returns the replies to send and whether to
/// disconnect.
///
/// - `Version` records the peer's metadata and is answered by `Verack`
///   then `GetAddr`.
/// - `Addr` stores every advertised address and the edges from `src`, then
///   ends the connection unless the list only echoes `src` itself.
/// - `Ping` is answered by `Pong` with the same nonce; `GetAddr`,
///   `GetHeaders` and `GetData` get empty or echoing answers; everything
///   else is ignored.
pub fn process_message(net: &mut KnownNetwork, src: NodeAddr, msg: Message, now: u64) -> (r: Vec<
    Response,
>)
    requires
        old(net).wf(),
    ensures
        final(net).wf(),
        msg matches Message::Ping(nonce) ==> r@ =~= seq![
            Response::Send(Message::Pong(nonce)),
        ] && *final(net) == *old(net),
        msg matches Message::GetAddr ==> r@.len() == 1 && (r@[0] matches Response::Send(
            Message::Addr(l),
        ) && l@.len() == 0) && *final(net) == *old(net),
        msg matches Message::GetHeaders ==> r@ =~= seq![
            Response::Send(Message::Headers),
        ] && *final(net) == *old(net),
        msg matches Message::GetData(inv) ==> r@ =~= seq![
            Response::Send(Message::NotFound(inv)),
        ] && *final(net) == *old(net),
        (msg matches Message::Verack || msg matches Message::Pong(_) || msg
            matches Message::Headers || msg matches Message::NotFound(_) || msg
            matches Message::Other) ==> r@ =~= Seq::<Response>::empty() && *final(net) == *old(net),
        msg matches Message::Version(v) ==> r@ =~= seq![
            Response::Send(Message::Verack),
            Response::Send(Message::GetAddr),
        ] && (forall|x: NodeAddr| #[trigger] final(net).has_node(x) <==> old(net).has_node(x)) && (
        old(net).has_node(src) ==> final(net).node_of(src) == (KnownNode {
            protocol_version: Some(v.version),
            user_agent: Some(v.user_agent),
            services: Some(v.services),
            start_height: Some(v.start_height),
            ..old(net).node_of(src)
        })),
        msg matches Message::Addr(list) ==> ({
            let ends = addr_ends_connection(list@, src);
            &&& r@.len() == (if ends {
                1int
            } else {
                0int
            })
            &&& ends ==> r@[0] == Response::Disconnect
            &&& final(net).has_node(src)
            &&& forall|x: NodeAddr|
                #[trigger] final(net).has_node(x) <==> old(net).has_node(x) || x == src
                    || list@.contains(x)
            &&& forall|k: int|
                0 <= k < list@.len() ==> final(net).has_node(#[trigger] list@[k]) && final(net).has_edge(src, list@[k]) && final(net).edge_last_seen(src, list@[k]) == now
            &&& forall|x: NodeAddr, y: NodeAddr|
                #[trigger] final(net).has_edge(x, y) <==> old(net).has_edge(x, y) || (x == src
                    && list@.contains(y))
            &&& forall|x: NodeAddr|
                old(net).has_node(x) && x != src ==> #[trigger] final(net).node_of(x) == old(
                    net,
                ).node_of(x)
            &&& forall|x: NodeAddr|
                !old(net).has_node(x) && #[trigger] final(net).has_node(x) ==> final(net).node_of(
                    x,
                ) == fresh_node()
            &&& !ends && old(net).has_node(src) ==> final(net).node_of(src) == old(net).node_of(
                src,
            )
            &&& ends && old(net).has_node(src) ==> final(net).node_of(src) == (KnownNode {
                state: ConnectionState::Disconnected,
                ..old(net).node_of(src)
            })
            &&& ends ==> final(net).node_of(src).state == ConnectionState::Disconnected
        }),
{
    match msg {
        Message::Addr(list) => {
            let n = list.len();
            let ends = if n > 1 {
                true
            } else if n == 1 {
                let first = list[0];
                first != src
            } else {
                false
            };
            net.add_addrs(src, &list, now);
            let ghost mid = *net;
            let mut r: Vec<Response> = Vec::new();
            if ends {
                net.set_node_state(src, ConnectionState::Disconnected);
                r.push(Response::Disconnect);
            }
            proof {
                let pre = *old(net);
                assert(net.conns_seq() == mid.conns_seq());
                assert forall|k: int| 0 <= k < list@.len() implies net.has_node(
                    #[trigger] list@[k],
                ) && net.has_edge(src, list@[k]) && net.edge_last_seen(src, list@[k]) == now by {
                    assert(list@.contains(list@[k]));
                    assert(mid.has_node(list@[k]));
                    assert(mid.has_edge(src, list@[k]));
                    assert(mid.edge_last_seen(src, list@[k]) == now);
                    assert(net.has_node(list@[k]));
                }
                assert(mid.has_node(src));
                assert(net.has_node(src));
                assert forall|x: NodeAddr| #[trigger] net.has_node(x) <==> pre.has_node(x) || x
                    == src || list@.contains(x) by {
                    assert(net.has_node(x) <==> mid.has_node(x));
                }
                assert forall|x: NodeAddr, y: NodeAddr| #[trigger] net.has_edge(x, y) <==>
                    pre.has_edge(x, y) || (x == src && list@.contains(y)) by {
                    assert(net.has_edge(x, y) <==> mid.has_edge(x, y));
                }
                assert forall|x: NodeAddr| pre.has_node(x) && x != src implies
                    #[trigger] net.node_of(x) == pre.node_of(x) by {
                    assert(mid.node_of(x) == pre.node_of(x));
                    assert(mid.has_node(x));
                    assert(net.node_of(x) == mid.node_of(x));
                }
                assert forall|x: NodeAddr| !pre.has_node(x) && #[trigger] net.has_node(x) implies
                    net.node_of(x) == fresh_node() by {
                    assert(mid.has_node(x));
                    assert(mid.node_of(x) == fresh_node());
                    if ends && x == src {
                        assert(net.node_of(src) == (KnownNode {
                            state: ConnectionState::Disconnected,
                            ..mid.node_of(src)
                        }));
                        assert(fresh_node().state == ConnectionState::Disconnected);
                    } else {
                        assert(net.node_of(x) == mid.node_of(x));
                    }
                }
                if ends {
                    assert(net.node_of(src) == (KnownNode {
                        state: ConnectionState::Disconnected,
                        ..mid.node_of(src)
                    }));
                    if pre.has_node(src) {
                        assert(mid.node_of(src) == pre.node_of(src));
                    } else {
                        assert(mid.node_of(src) == fresh_node());
                    }
                } else {
                    if pre.has_node(src) {
                        assert(net.node_of(src) == mid.node_of(src));
                        assert(mid.node_of(src) == pre.node_of(src));
                    }
                }
            }
            r
        }
        Message::Ping(nonce) => {
            let mut r: Vec<Response> = Vec::new();
            r.push(Response::Send(Message::Pong(nonce)));
            r
        }
        Message::GetAddr => {
            let mut r: Vec<Response> = Vec::new();
            let empty: Vec<NodeAddr> = Vec::new();
            r.push(Response::Send(Message::Addr(empty)));
            r
        }
        Message::GetHeaders => {
            let mut r: Vec<Response> = Vec::new();
            r.push(Response::Send(Message::Headers));
            r
        }
        Message::GetData(inv) => {
            let mut r: Vec<Response> = Vec::new();
            r.push(Response::Send(Message::NotFound(inv)));
            r
        }
        Message::Version(v) => {
            net.record_version(src, v.version, v.user_agent, v.services, v.start_height);
            let mut r: Vec<Response> = Vec::new();
            r.push(Response::Send(Message::Verack));
            r.push(Response::Send(Message::GetAddr));
            r
        }
        _ => {
            Vec::new()
        }
    }
}

/// Whether a dial to `addr` may be issued: the address must be known, the
/// connection cap must leave room for the active connections and dials in
/// flight, and no connection or dial to the address may already exist.
pub fn should_connect(
    net: &KnownNetwork,
    addr: NodeAddr,
    num_connected: usize,
    num_connecting: usize,
    is_connected: bool,
    is_connecting: bool,
) -> (r: bool)
    ensures
        r == (net.has_node(addr) && num_connected + num_connecting < (
        MAX_CONCURRENT_CONNECTIONS as int) && !is_connected && !is_connecting),
{
    if !net.contains_node(addr) {
        return false;
    }
    let cap = MAX_CONCURRENT_CONNECTIONS as usize;
    if num_connected >= cap || num_connecting >= cap - num_connected {
        return false;
    }
    if is_connected || is_connecting {
        return false;
    }
    true
}

/// Some record of `s` satisfies `p` and has address `a`.
pub open spec fn some_row_matches(
    s: Seq<(NodeAddr, KnownNode)>,
    p: spec_fn((NodeAddr, KnownNode)) -> bool,
    a: NodeAddr,
) -> bool {
    exists|j: int| 0 <= j < s.len() && p(#[trigger] s[j]) && s[j].0 == a
}

/// A record the reaper should disconnect: still marked connected, but its
/// last handshake lies at least [`MAX_WAIT_FOR_ADDR_SECS`] in the past
/// (or was never recorded).
pub open spec fn stale_pred(now: u64) -> spec_fn((NodeAddr, KnownNode)) -> bool {
    |p: (NodeAddr, KnownNode)|
        p.1.state == ConnectionState::Connected && match p.1.last_connected {
            Some(t) => now >= t && now - t >= MAX_WAIT_FOR_ADDR_SECS,
            None => true,
        }
}

/// The addresses the reaper should disconnect, in snapshot order.
pub fn stale_connected(nodes: &Vec<(NodeAddr, KnownNode)>, now: u64) -> (r: Vec<NodeAddr>)
    ensures
        r@.len() == count_where(nodes@, stale_pred(now)),
        forall|j: int|
            0 <= j < nodes@.len() && stale_pred(now)(#[trigger] nodes@[j]) ==> r@.contains(
                nodes@[j].0,
            ),
        forall|k: int|
            0 <= k < r@.len() ==> some_row_matches(nodes@, stale_pred(now), #[trigger] r@[k]),
{
    let n = nodes.len();
    let mut r: Vec<NodeAddr> = Vec::new();
    let mut i: usize = 0;
    proof {
        assert(nodes@.subrange(0, 0) =~= Seq::<(NodeAddr, KnownNode)>::empty());
    }
    while i < n
        invariant
            n == nodes@.len(),
            i <= n,
            r@.len() == count_where(nodes@.subrange(0, i as int), stale_pred(now)),
            forall|j: int|
                0 <= j < i && stale_pred(now)(#[trigger] nodes@[j]) ==> r@.contains(nodes@[j].0),
            forall|k: int|
                0 <= k < r@.len() ==> some_row_matches(nodes@, stale_pred(now), #[trigger] r@[k]),
        decreases n - i,
    {
        let ghost prefix = nodes@.subrange(0, i as int);
        let ghost prefix1 = nodes@.subrange(0, i + 1);
        let ghost pre_r = r@;
        proof {
            assert(prefix1.drop_last() =~= prefix);
            assert(prefix1.last() == nodes@[i as int]);
        }
        let is_stale = if nodes[i].1.state == ConnectionState::Connected {
            match nodes[i].1.last_connected {
                Some(t) => now >= t && now - t >= MAX_WAIT_FOR_ADDR_SECS,
                None => true,
            }
        } else {
            false
        };
        if is_stale {
            r.push(nodes[i].0);
            proof {
                assert(r@[r@.len() - 1] == nodes@[i as int].0);
                assert forall|j: int|
                    0 <= j < i + 1 && stale_pred(now)(#[trigger] nodes@[j]) implies r@.contains(
                    nodes@[j].0,
                ) by {
                    if j < i {
                        let k = choose|k: int| 0 <= k < pre_r.len() && pre_r[k] == nodes@[j].0;
                        assert(r@[k] == nodes@[j].0);
                    }
                }
                assert forall|k: int|
                    0 <= k < r@.len() implies some_row_matches(
                    nodes@,
                    stale_pred(now),
                    #[trigger] r@[k],
                ) by {
                    if k < pre_r.len() {
                        assert(r@[k] == pre_r[k]);
                    } else {
                        assert(r@[k] == nodes@[i as int].0);
                        assert(stale_pred(now)(nodes@[i as int]));
                    }
                }
            }
        }
        i = i + 1;
    }
    proof {
        assert(nodes@.subrange(0, n as int) =~= nodes@);
    }
    r
}

/// A record eligible for a dial this tick: not contacted within the
/// reconnect cooldown.
pub open spec fn eligible_pred(now: u64) -> spec_fn((NodeAddr, KnownNode)) -> bool {
    |p: (NodeAddr, KnownNode)|
        match p.1.last_connected {
            Some(t) => !(now >= t && now - t < RECONNECT_INTERVAL_SECS),
            None => true,
        }
}

/// An eligible record we have never seen a `Version` from.
pub open spec fn need_info_pred(now: u64) -> spec_fn((NodeAddr, KnownNode)) -> bool {
    |p: (NodeAddr, KnownNode)| eligible_pred(now)(p) && p.1.user_agent is None
}

/// An eligible record whose user agent is already known.
pub open spec fn have_info_pred(now: u64) -> spec_fn((NodeAddr, KnownNode)) -> bool {
    |p: (NodeAddr, KnownNode)| eligible_pred(now)(p) && p.1.user_agent is Some
}

/// Splits the snapshot into dial candidates: records without a known user
/// agent, and records with one. Peers contacted within the last
/// [`RECONNECT_INTERVAL_SECS`] seconds are excluded from both.
pub fn select_candidates(nodes: &Vec<(NodeAddr, KnownNode)>, now: u64) -> (r: (
    Vec<NodeAddr>,
    Vec<NodeAddr>,
))
    ensures
        r.0@.len() == count_where(nodes@, need_info_pred(now)),
        r.1@.len() == count_where(nodes@, have_info_pred(now)),
        forall|j: int|
            0 <= j < nodes@.len() && need_info_pred(now)(#[trigger] nodes@[j]) ==> r.0@.contains(
                nodes@[j].0,
            ),
        forall|j: int|
            0 <= j < nodes@.len() && have_info_pred(now)(#[trigger] nodes@[j]) ==> r.1@.contains(
                nodes@[j].0,
            ),
        forall|k: int|
            0 <= k < r.0@.len() ==> some_row_matches(
                nodes@,
                need_info_pred(now),
                #[trigger] r.0@[k],
            ),
        forall|k: int|
            0 <= k < r.1@.len() ==> some_row_matches(
                nodes@,
                have_info_pred(now),
                #[trigger] r.1@[k],
            ),
{
    let n = nodes.len();
    let mut need: Vec<NodeAddr> = Vec::new();
    let mut have: Vec<NodeAddr> = Vec::new();
    let mut i: usize = 0;
    proof {
        assert(nodes@.subrange(0, 0) =~= Seq::<(NodeAddr, KnownNode)>::empty());
    }
    while i < n
        invariant
            n == nodes@.len(),
            i <= n,
            need@.len() == count_where(nodes@.subrange(0, i as int), need_info_pred(now)),
            have@.len() == count_where(nodes@.subrange(0, i as int), have_info_pred(now)),
            forall|j: int|
                0 <= j < i && need_info_pred(now)(#[trigger] nodes@[j]) ==> need@.contains(
                    nodes@[j].0,
                ),
            forall|j: int|
                0 <= j < i && have_info_pred(now)(#[trigger] nodes@[j]) ==> have@.contains(
                    nodes@[j].0,
                ),
            forall|k: int|
                0 <= k < need@.len() ==> some_row_matches(
                    nodes@,
                    need_info_pred(now),
                    #[trigger] need@[k],
                ),
            forall|k: int|
                0 <= k < have@.len() ==> some_row_matches(
                    nodes@,
                    have_info_pred(now),
                    #[trigger] have@[k],
                ),
        decreases n - i,
    {
        let ghost prefix = nodes@.subrange(0, i as int);
        let ghost prefix1 = nodes@.subrange(0, i + 1);
        let ghost pre_need = need@;
        let ghost pre_have = have@;
        proof {
            assert(prefix1.drop_last() =~= prefix);
            assert(prefix1.last() == nodes@[i as int]);
        }
        let eligible = match nodes[i].1.last_connected {
            Some(t) => !(now >= t && now - t < RECONNECT_INTERVAL_SECS),
            None => true,
        };
        if eligible {
            let has_agent = match &nodes[i].1.user_agent {
                Some(_) => true,
                None => false,
            };
            if has_agent {
                have.push(nodes[i].0);
                proof {
                    assert(have@[have@.len() - 1] == nodes@[i as int].0);
                    assert forall|j: int|
                        0 <= j < i + 1 && have_info_pred(now)(#[trigger] nodes@[j]) implies have@.contains(
                        nodes@[j].0,
                    ) by {
                        if j < i {
                            let k = choose|k: int|
                                0 <= k < pre_have.len() && pre_have[k] == nodes@[j].0;
                            assert(have@[k] == nodes@[j].0);
                        }
                    }
                    assert forall|k: int|
                        0 <= k < have@.len() implies some_row_matches(
                        nodes@,
                        have_info_pred(now),
                        #[trigger] have@[k],
                    ) by {
                        if k < pre_have.len() {
                            assert(have@[k] == pre_have[k]);
                        } else {
                            assert(have@[k] == nodes@[i as int].0);
                            assert(have_info_pred(now)(nodes@[i as int]));
                        }
                    }
                }
            } else {
                need.push(nodes[i].0);
                proof {
                    assert(need@[need@.len() - 1] == nodes@[i as int].0);
                    assert forall|j: int|
                        0 <= j < i + 1 && need_info_pred(now)(#[trigger] nodes@[j]) implies need@.contains(
                        nodes@[j].0,
                    ) by {
                        if j < i {
                            let k = choose|k: int|
                                0 <= k < pre_need.len() && pre_need[k] == nodes@[j].0;
                            assert(need@[k] == nodes@[j].0);
                        }
                    }
                    assert forall|k: int|
                        0 <= k < need@.len() implies some_row_matches(
                        nodes@,
                        need_info_pred(now),
                        #[trigger] need@[k],
                    ) by {
                        if k < pre_need.len() {
                            assert(need@[k] == pre_need[k]);
                        } else {
                            assert(need@[k] == nodes@[i as int].0);
                            assert(need_info_pred(now)(nodes@[i as int]));
                        }
                    }
                }
            }
        }
        i = i + 1;
    }
    proof {
        assert(nodes@.subrange(0, n as int) =~= nodes@);
    }
    (need, have)
}

/// Relies on rand's `SliceRandom::shuffle`: the result is a permutation
/// of the input, in an order that nothing may assume.
#[verifier::external_body]
fn shuffle_addrs(v: &mut Vec<NodeAddr>)
    ensures
        final(v)@.to_multiset() == old(v)@.to_multiset(),
{
    rand::seq::SliceRandom::shuffle(v.as_mut_slice(), &mut rand::thread_rng());
}

/// The targets drawn from two shuffled buckets: up to
/// [`NUM_CONN_ATTEMPTS_PERIODIC`] addresses, the whole first bucket (or
/// its first 2000) first, then the second bucket filling what room is
/// left.
pub open spec fn take_targets(n2: Seq<NodeAddr>, h2: Seq<NodeAddr>) -> Seq<NodeAddr> {
    let tn = vstd::math::min(NUM_CONN_ATTEMPTS_PERIODIC as int, n2.len() as int);
    let th = vstd::math::min(NUM_CONN_ATTEMPTS_PERIODIC as int - tn, h2.len() as int);
    n2.subrange(0, tn) + h2.subrange(0, th)
}

/// The listing is [`take_targets`] of some reordering of each bucket:
/// never-contacted peers keep priority, and no address is drawn beyond
/// its multiplicity.
pub open spec fn targets_shape(r: Seq<NodeAddr>, need: Seq<NodeAddr>, have: Seq<NodeAddr>) -> bool {
    exists|n2: Seq<NodeAddr>, h2: Seq<NodeAddr>|
        n2.to_multiset() == need.to_multiset() && h2.to_multiset() == have.to_multiset() && r
            == #[trigger] take_targets(n2, h2)
}

/// Shuffles both candidate buckets and takes up to
/// [`NUM_CONN_ATTEMPTS_PERIODIC`] addresses, never-contacted peers first;
/// see [`targets_shape`].
pub fn build_targets(need: Vec<NodeAddr>, have: Vec<NodeAddr>) -> (r: Vec<NodeAddr>)
    ensures
        r@.len() == vstd::math::min(
            NUM_CONN_ATTEMPTS_PERIODIC as int,
            need@.len() + have@.len() as int,
        ),
        targets_shape(r@, need@, have@),
        forall|k: int|
            0 <= k < r@.len() ==> need@.contains(#[trigger] r@[k]) || have@.contains(r@[k]),
{
    proof {
        broadcast use vstd::seq_lib::group_to_multiset_ensures;

    }
    let mut need = need;
    let mut have = have;
    let ghost need0 = need@;
    let ghost have0 = have@;
    shuffle_addrs(&mut need);
    shuffle_addrs(&mut have);
    proof {
        assert forall|x: NodeAddr| need@.contains(x) implies #[trigger] need0.contains(x) by {
            assert(need@.to_multiset().count(x) > 0);
        }
        assert forall|x: NodeAddr| have@.contains(x) implies #[trigger] have0.contains(x) by {
            assert(have@.to_multiset().count(x) > 0);
        }
        assert(need@.to_multiset().len() == need@.len());
        assert(need0.to_multiset().len() == need0.len());
        assert(have@.to_multiset().len() == have@.len());
        assert(have0.to_multiset().len() == have0.len());
    }
    let mut r: Vec<NodeAddr> = Vec::new();
    let mut i: usize = 0;
    let take_need = if need.len() < NUM_CONN_ATTEMPTS_PERIODIC {
        need.len()
    } else {
        NUM_CONN_ATTEMPTS_PERIODIC
    };
    proof {
        assert(r@ =~= need@.subrange(0, 0));
    }
    while i < take_need
        invariant
            take_need <= need@.len(),
            i <= take_need,
            r@ == need@.subrange(0, i as int),
        decreases take_need - i,
    {
        let ghost pre_r = r@;
        r.push(need[i]);
        proof {
            assert(r@ =~= need@.subrange(0, i + 1));
        }
        i = i + 1;
    }
    let room = NUM_CONN_ATTEMPTS_PERIODIC - take_need;
    let take_have = if have.len() < room {
        have.len()
    } else {
        room
    };
    let mut j: usize = 0;
    proof {
        assert(r@ =~= need@.subrange(0, take_need as int) + have@.subrange(0, 0));
    }
    while j < take_have
        invariant
            take_need <= need@.len(),
            take_have <= have@.len(),
            j <= take_have,
            r@ == need@.subrange(0, take_need as int) + have@.subrange(0, j as int),
        decreases take_have - j,
    {
        r.push(have[j]);
        proof {
            assert(r@ =~= need@.subrange(0, take_need as int) + have@.subrange(0, j + 1));
        }
        j = j + 1;
    }
    proof {
        assert(take_need as int == vstd::math::min(
            NUM_CONN_ATTEMPTS_PERIODIC as int,
            need@.len() as int,
        ));
        assert(take_have as int == vstd::math::min(
            NUM_CONN_ATTEMPTS_PERIODIC as int - take_need as int,
            have@.len() as int,
        ));
        assert(r@ == take_targets(need@, have@));
        assert(need@.to_multiset() == need0.to_multiset() && have@.to_multiset()
            == have0.to_multiset() && r@ == take_targets(need@, have@));
        assert(targets_shape(r@, need0, have0));
        assert forall|k: int| 0 <= k < r@.len() implies need0.contains(#[trigger] r@[k])
            || have0.contains(r@[k]) by {
            if k < take_need {
                assert(r@[k] == need@[k]);
                assert(need@.contains(need@[k]));
            } else {
                assert(r@[k] == have@[k - take_need]);
                assert(have@.contains(have@[k - take_need]));
            }
        }
    }
    r
}

} // verus!
