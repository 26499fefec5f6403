//! The periodic network summary: good-node census, network-type
//! classification, and the adjacency view over the live edge set.

use vstd::prelude::*;

use crate::addr::NodeAddr;
use crate::network::{KnownNetwork, KnownNode};
use crate::rpc::count_where;
use crate::strutil::{digit_val, is_digit, starts_with_seq, str_starts_with};
use crate::{ZCASH_P2P_DEFAULT_MAINNET_PORT, ZCASH_P2P_DEFAULT_TESTNET_PORT};

verus! {

/// Heights below this never classify as Zcash in the summary.
pub const MIN_SUMMARY_HEIGHT: i32 = 2_000_000;

/// The network-type tag of a summarized node.
#[derive(Clone, Copy, PartialEq, Eq, Structural, Debug)]
pub enum NetworkType {
    Zcash,
    Unknown,
}

/// The derived, read-only view of the known network that the RPC surface
/// serves as `getmetrics`.
#[derive(Clone, Debug)]
pub struct NetworkSummary {
    pub num_known_nodes: usize,
    /// Records that have ever completed a handshake.
    pub num_good_nodes: usize,
    pub num_known_connections: usize,
    /// Records with a known protocol version.
    pub num_versions: usize,
    /// How many records advertise each protocol version.
    pub protocol_versions: Vec<(u32, usize)>,
    /// How many records with a known version advertise each user agent.
    pub user_agents: Vec<(String, usize)>,
    pub crawler_runtime_secs: u64,
    /// The good nodes, in store order; the index domain of the two
    /// parallel vectors below.
    pub node_addrs: Vec<NodeAddr>,
    pub node_network_types: Vec<NetworkType>,
    /// For each good node, the indices of the good nodes an edge connects
    /// it to, in ascending order.
    pub nodes_indices: Vec<Vec<usize>>,
}

/// A record that has ever completed a handshake.
pub open spec fn good_pred() -> spec_fn((NodeAddr, KnownNode)) -> bool {
    |p: (NodeAddr, KnownNode)| p.1.last_connected is Some
}

/// A record with a known protocol version.
pub open spec fn versioned_pred() -> spec_fn((NodeAddr, KnownNode)) -> bool {
    |p: (NodeAddr, KnownNode)| p.1.protocol_version is Some
}

/// An exact `/MagicBean:d.d.d/` agent, one digit per component,
/// case-sensitive.
pub open spec fn zcashd_exact_pat(s: Seq<char>) -> bool {
    &&& s.len() == 17
    &&& starts_with_seq(s, "/MagicBean:"@)
    &&& is_digit(s[11])
    &&& s[12] == '.'
    &&& is_digit(s[13])
    &&& s[14] == '.'
    &&& is_digit(s[15])
    &&& s[16] == '/'
}

/// An agent beginning `/Zebra:d.d.d`, one digit per component,
/// case-sensitive.
pub open spec fn zebra_prefix_pat(s: Seq<char>) -> bool {
    &&& s.len() >= 12
    &&& starts_with_seq(s, "/Zebra:"@)
    &&& is_digit(s[7])
    &&& s[8] == '.'
    &&& is_digit(s[9])
    &&& s[10] == '.'
    &&& is_digit(s[11])
}

/// The agent string a record is classified by: the raw user agent, or
/// empty when none was seen.
pub open spec fn agent_of(n: KnownNode) -> Seq<char> {
    match n.user_agent {
        Some(ua) => ua@,
        None => Seq::empty(),
    }
}

/// The network-type tag of one record: a `MagicBean` of major version 6
/// or more is never Zcash; otherwise the node must advertise at least
/// [`MIN_SUMMARY_HEIGHT`] and either listen on a default Zcash port or
/// match one of the two agent shapes.
#[verifier::opaque]
pub open spec fn network_type_spec(p: (NodeAddr, KnownNode)) -> NetworkType {
    let agent = agent_of(p.1);
    if zcashd_exact_pat(agent) && digit_val(agent[11]) >= 6 {
        NetworkType::Unknown
    } else if (match p.1.start_height {
        Some(h) => h,
        None => 0,
    }) < MIN_SUMMARY_HEIGHT {
        NetworkType::Unknown
    } else if p.0.port == ZCASH_P2P_DEFAULT_MAINNET_PORT || p.0.port
        == ZCASH_P2P_DEFAULT_TESTNET_PORT || zcashd_exact_pat(agent) || zebra_prefix_pat(agent) {
        NetworkType::Zcash
    } else {
        NetworkType::Unknown
    }
}

/// How many records advertise protocol version `v`.
pub open spec fn count_version(s: Seq<(NodeAddr, KnownNode)>, v: u32) -> nat
    decreases s.len(),
{
    if s.len() == 0 {
        0
    } else {
        count_version(s.drop_last(), v) + if s.last().1.protocol_version == Some(v) {
            1nat
        } else {
            0nat
        }
    }
}

/// Whether a record has a known version and the agent string `ua`.
pub open spec fn has_agent(n: KnownNode, ua: Seq<char>) -> bool {
    n.protocol_version is Some && (n.user_agent matches Some(u) && u@ == ua)
}

/// How many records have a known version and the agent string `ua`.
pub open spec fn count_agent(s: Seq<(NodeAddr, KnownNode)>, ua: Seq<char>) -> nat
    decreases s.len(),
{
    if s.len() == 0 {
        0
    } else {
        count_agent(s.drop_last(), ua) + if has_agent(s.last().1, ua) {
            1nat
        } else {
            0nat
        }
    }
}

/// `v` has an entry in the version census.
pub open spec fn version_listed(pv: Seq<(u32, usize)>, v: u32) -> bool {
    exists|k: int| 0 <= k < pv.len() && pv[k].0 == v
}

/// `ua` has an entry in the agent census.
pub open spec fn agent_listed(pv: Seq<(String, usize)>, ua: Seq<char>) -> bool {
    exists|k: int| 0 <= k < pv.len() && pv[k].0@ == ua
}

/// A correct `version -> count` census of `s`: unique keys, every entry
/// the exact count (never zero), and an entry for every version seen.
pub open spec fn version_census_ok(pv: Seq<(u32, usize)>, s: Seq<(NodeAddr, KnownNode)>) -> bool {
    &&& forall|k1: int, k2: int|
        0 <= k1 < pv.len() && 0 <= k2 < pv.len() && pv[k1].0 == pv[k2].0 ==> k1 == k2
    &&& forall|k: int|
        0 <= k < pv.len() ==> (#[trigger] pv[k]).1 == count_version(s, pv[k].0) && pv[k].1 > 0
    &&& forall|v: u32| count_version(s, v) > 0 ==> #[trigger] version_listed(pv, v)
}

/// A correct `user agent -> count` census of `s`, over records with a
/// known version: unique keys, exact counts, an entry for every agent.
pub open spec fn agent_census_ok(pv: Seq<(String, usize)>, s: Seq<(NodeAddr, KnownNode)>) -> bool {
    &&& forall|k1: int, k2: int|
        0 <= k1 < pv.len() && 0 <= k2 < pv.len() && pv[k1].0@ == pv[k2].0@ ==> k1 == k2
    &&& forall|k: int|
        0 <= k < pv.len() ==> (#[trigger] pv[k]).1 == count_agent(s, pv[k].0@) && pv[k].1 > 0
    &&& forall|ua: Seq<char>| count_agent(s, ua) > 0 ==> #[trigger] agent_listed(pv, ua)
}

/// The `version -> count` census of a snapshot.
pub fn version_census(nodes: &Vec<(NodeAddr, KnownNode)>) -> (r: Vec<(u32, usize)>)
    ensures
        version_census_ok(r@, nodes@),
{
    let n = nodes.len();
    let mut pv: Vec<(u32, usize)> = Vec::new();
    let mut i: usize = 0;
    proof {
        assert(nodes@.subrange(0, 0) =~= Seq::<(NodeAddr, KnownNode)>::empty());
    }
    while i < n
        invariant
            n == nodes@.len(),
            i <= n,
            forall|k1: int, k2: int|
                0 <= k1 < pv@.len() && 0 <= k2 < pv@.len() && pv@[k1].0 == pv@[k2].0 ==> k1 == k2,
            forall|k: int|
                0 <= k < pv@.len() ==> (#[trigger] pv@[k]).1 == count_version(
                    nodes@.subrange(0, i as int),
                    pv@[k].0,
                ) && 0 < pv@[k].1 <= i,
            forall|v: u32|
                count_version(nodes@.subrange(0, i as int), v) > 0 ==> #[trigger] version_listed(
                    pv@,
                    v,
                ),
        decreases n - i,
    {
        let ghost prefix = nodes@.subrange(0, i as int);
        let ghost prefix1 = nodes@.subrange(0, i + 1);
        let ghost pre_pv = pv@;
        proof {
            assert(prefix1.drop_last() =~= prefix);
            assert(prefix1.last() == nodes@[i as int]);
        }
        match nodes[i].1.protocol_version {
            Some(v) => {
                let m = pv.len();
                let mut f: usize = 0;
                while f < m && pv[f].0 != v
                    invariant
                        m == pv@.len(),
                        f <= m,
                        pv@ == pre_pv,
                        forall|k: int| 0 <= k < f ==> pv@[k].0 != v,
                    decreases m - f,
                {
                    f = f + 1;
                }
                if f < m {
                    let c = pv[f].1;
                    pv[f] = (v, c + 1);
                    proof {
                        assert forall|v2: u32|
                            count_version(prefix1, v2) > 0 implies #[trigger] version_listed(
                            pv@,
                            v2,
                        ) by {
                            if count_version(prefix, v2) > 0 {
                                assert(version_listed(pre_pv, v2));
                                let k = choose|k: int|
                                    0 <= k < pre_pv.len() && pre_pv[k].0 == v2;
                                if k == f as int {
                                    assert(pv@[k].0 == v);
                                    assert(pre_pv[k].0 == v);
                                } else {
                                    assert(pv@[k] == pre_pv[k]);
                                }
                                assert(pv@[k].0 == v2);
                            } else {
                                assert(v2 == v);
                                assert(pv@[f as int].0 == v);
                            }
                        }
                    }
                } else {
                    proof {
                        assert(!version_listed(pre_pv, v));
                        assert(count_version(prefix, v) == 0);
                    }
                    pv.push((v, 1));
                    proof {
                        assert(pv@[pv@.len() - 1].0 == v);
                        assert forall|v2: u32|
                            count_version(prefix1, v2) > 0 implies #[trigger] version_listed(
                            pv@,
                            v2,
                        ) by {
                            if count_version(prefix, v2) > 0 {
                                assert(version_listed(pre_pv, v2));
                                let k = choose|k: int|
                                    0 <= k < pre_pv.len() && pre_pv[k].0 == v2;
                                assert(pv@[k] == pre_pv[k]);
                                assert(pv@[k].0 == v2);
                            } else {
                                assert(v2 == v);
                                assert(pv@[pv@.len() - 1].0 == v);
                            }
                        }
                    }
                }
            }
            None => {},
        }
        i = i + 1;
    }
    proof {
        assert(nodes@.subrange(0, n as int) =~= nodes@);
    }
    pv
}

/// The `user agent -> count` census of a snapshot, over records with a
/// known version.
pub fn agent_census(nodes: &Vec<(NodeAddr, KnownNode)>) -> (r: Vec<(String, usize)>)
    ensures
        agent_census_ok(r@, nodes@),
{
    let n = nodes.len();
    let mut pv: Vec<(String, usize)> = Vec::new();
    let mut i: usize = 0;
    proof {
        assert(nodes@.subrange(0, 0) =~= Seq::<(NodeAddr, KnownNode)>::empty());
    }
    while i < n
        invariant
            n == nodes@.len(),
            i <= n,
            forall|k1: int, k2: int|
                0 <= k1 < pv@.len() && 0 <= k2 < pv@.len() && pv@[k1].0@ == pv@[k2].0@ ==> k1
                    == k2,
            forall|k: int|
                0 <= k < pv@.len() ==> (#[trigger] pv@[k]).1 == count_agent(
                    nodes@.subrange(0, i as int),
                    pv@[k].0@,
                ) && 0 < pv@[k].1 <= i,
            forall|ua: Seq<char>|
                count_agent(nodes@.subrange(0, i as int), ua) > 0 ==> #[trigger] agent_listed(
                    pv@,
                    ua,
                ),
        decreases n - i,
    {
        let ghost prefix = nodes@.subrange(0, i as int);
        let ghost prefix1 = nodes@.subrange(0, i + 1);
        let ghost pre_pv = pv@;
        proof {
            assert(prefix1.drop_last() =~= prefix);
            assert(prefix1.last() == nodes@[i as int]);
        }
        let versioned = match nodes[i].1.protocol_version {
            Some(_) => true,
            None => false,
        };
        if versioned {
            match &nodes[i].1.user_agent {
                Some(ua) => {
                    let m = pv.len();
                    let mut f: usize = 0;
                    while f < m && !(pv[f].0 == *ua)
                        invariant
                            m == pv@.len(),
                            f <= m,
                            pv@ == pre_pv,
                            ua@ == nodes@[i as int].1.user_agent->Some_0@,
                            forall|k: int| 0 <= k < f ==> pv@[k].0@ != ua@,
                        decreases m - f,
                    {
                        f = f + 1;
                    }
                    if f < m {
                        let c = pv[f].1;
                        let key = ua.clone();
                        pv[f] = (key, c + 1);
                        proof {
                            assert(pv@[f as int].0@ == ua@);
                            assert forall|ua2: Seq<char>|
                                count_agent(prefix1, ua2) > 0 implies #[trigger] agent_listed(
                                pv@,
                                ua2,
                            ) by {
                                if count_agent(prefix, ua2) > 0 {
                                    assert(agent_listed(pre_pv, ua2));
                                    let k = choose|k: int|
                                        0 <= k < pre_pv.len() && pre_pv[k].0@ == ua2;
                                    if k == f as int {
                                        assert(pv@[k].0@ == ua@);
                                        assert(pre_pv[k].0@ == ua@);
                                    } else {
                                        assert(pv@[k] == pre_pv[k]);
                                    }
                                    assert(pv@[k].0@ == ua2);
                                } else {
                                    assert(ua2 == ua@);
                                    assert(pv@[f as int].0@ == ua@);
                                }
                            }
                        }
                    } else {
                        proof {
                            assert(!agent_listed(pre_pv, ua@));
                            assert(count_agent(prefix, ua@) == 0);
                        }
                        pv.push((ua.clone(), 1));
                        proof {
                            assert(pv@[pv@.len() - 1].0@ == ua@);
                            assert forall|ua2: Seq<char>|
                                count_agent(prefix1, ua2) > 0 implies #[trigger] agent_listed(
                                pv@,
                                ua2,
                            ) by {
                                if count_agent(prefix, ua2) > 0 {
                                    assert(agent_listed(pre_pv, ua2));
                                    let k = choose|k: int|
                                        0 <= k < pre_pv.len() && pre_pv[k].0@ == ua2;
                                    assert(pv@[k] == pre_pv[k]);
                                    assert(pv@[k].0@ == ua2);
                                } else {
                                    assert(ua2 == ua@);
                                    assert(pv@[pv@.len() - 1].0@ == ua@);
                                }
                            }
                        }
                    }
                }
                None => {},
            }
        }
        i = i + 1;
    }
    proof {
        assert(nodes@.subrange(0, n as int) =~= nodes@);
    }
    pv
}

/// The addresses of the good records, in store order.
pub open spec fn good_addrs(s: Seq<(NodeAddr, KnownNode)>) -> Seq<NodeAddr>
    decreases s.len(),
{
    if s.len() == 0 {
        Seq::empty()
    } else {
        let rest = good_addrs(s.drop_last());
        if good_pred()(s.last()) {
            rest.push(s.last().0)
        } else {
            rest
        }
    }
}

/// The network types of the good records, parallel to [`good_addrs`].
pub open spec fn good_types(s: Seq<(NodeAddr, KnownNode)>) -> Seq<NetworkType>
    decreases s.len(),
{
    if s.len() == 0 {
        Seq::empty()
    } else {
        let rest = good_types(s.drop_last());
        if good_pred()(s.last()) {
            rest.push(network_type_spec(s.last()))
        } else {
            rest
        }
    }
}

/// The adjacency row of good node `k`: the indices `j < upto` of good
/// nodes an edge connects it to, ascending.
pub open spec fn adj_row(net: KnownNetwork, addrs: Seq<NodeAddr>, k: int, upto: int) -> Seq<usize>
    decreases upto,
{
    if upto <= 0 {
        Seq::empty()
    } else {
        let rest = adj_row(net, addrs, k, upto - 1);
        if upto - 1 != k && (net.has_edge(addrs[k], addrs[upto - 1]) || net.has_edge(
            addrs[upto - 1],
            addrs[k],
        )) {
            rest.push((upto - 1) as usize)
        } else {
            rest
        }
    }
}

/// Whether an agent string has the exact `/MagicBean:d.d.d/` shape; if it
/// does, the major-version digit is returned too.
fn zcashd_exact(s: &str) -> (r: (bool, u32))
    ensures
        r.0 == zcashd_exact_pat(s@),
        r.0 ==> r.1 == digit_val(s@[11]),
{
    proof {
        reveal_strlit("/MagicBean:");
    }
    let n = s.unicode_len();
    if n != 17 {
        return (false, 0);
    }
    if !str_starts_with(s, "/MagicBean:") {
        return (false, 0);
    }
    let d1 = s.get_char(11);
    let p1 = s.get_char(12);
    let d2 = s.get_char(13);
    let p2 = s.get_char(14);
    let d3 = s.get_char(15);
    let sl = s.get_char(16);
    let c1 = d1 as u32;
    let ok = c1 >= '0' as u32 && c1 <= '9' as u32 && p1 == '.' && (d2 as u32) >= '0' as u32 && (d2
        as u32) <= '9' as u32 && p2 == '.' && (d3 as u32) >= '0' as u32 && (d3 as u32) <= '9'
        as u32 && sl == '/';
    if ok {
        (true, c1 - '0' as u32)
    } else {
        (false, 0)
    }
}

/// Whether an agent string begins `/Zebra:d.d.d`.
fn zebra_prefix(s: &str) -> (r: bool)
    ensures
        r == zebra_prefix_pat(s@),
{
    proof {
        reveal_strlit("/Zebra:");
    }
    let n = s.unicode_len();
    if n < 12 {
        return false;
    }
    if !str_starts_with(s, "/Zebra:") {
        return false;
    }
    let d1 = s.get_char(7) as u32;
    let p1 = s.get_char(8);
    let d2 = s.get_char(9) as u32;
    let p2 = s.get_char(10);
    let d3 = s.get_char(11) as u32;
    d1 >= '0' as u32 && d1 <= '9' as u32 && p1 == '.' && d2 >= '0' as u32 && d2 <= '9' as u32 && p2
        == '.' && d3 >= '0' as u32 && d3 <= '9' as u32
}

/// The network-type tag of one record; see [`network_type_spec`].
pub fn classify_network_type(addr: NodeAddr, node: &KnownNode) -> (r: NetworkType)
    ensures
        r == network_type_spec((addr, *node)),
{
    proof {
        reveal(network_type_spec);
    }
    let empty_agent = String::new();
    let agent: &String = match &node.user_agent {
        Some(ua) => ua,
        None => &empty_agent,
    };
    let (zc, major) = zcashd_exact(agent.as_str());
    if zc && major >= 6 {
        return NetworkType::Unknown;
    }
    let h: i32 = match node.start_height {
        Some(h) => h,
        None => 0,
    };
    if h < MIN_SUMMARY_HEIGHT {
        return NetworkType::Unknown;
    }
    let port_ok = addr.port == ZCASH_P2P_DEFAULT_MAINNET_PORT || addr.port
        == ZCASH_P2P_DEFAULT_TESTNET_PORT;
    if port_ok || zc || zebra_prefix(agent.as_str()) {
        NetworkType::Zcash
    } else {
        NetworkType::Unknown
    }
}

/// Builds the summary of the known network: the censuses, the good-node
/// list with its parallel classification, and the adjacency rows over the
/// live edge set. `num_good_nodes` never exceeds `num_known_nodes`, and
/// `node_network_types` always has exactly one entry per good address.
pub fn build_summary(net: &KnownNetwork, runtime_secs: u64) -> (r: NetworkSummary)
    requires
        net.wf(),
    ensures
        r.num_known_nodes == net.nodes_seq().len(),
        r.num_good_nodes == count_where(net.nodes_seq(), good_pred()),
        r.num_good_nodes <= r.num_known_nodes,
        r.num_known_connections == net.conns_seq().len(),
        r.num_versions == count_where(net.nodes_seq(), versioned_pred()),
        version_census_ok(r.protocol_versions@, net.nodes_seq()),
        agent_census_ok(r.user_agents@, net.nodes_seq()),
        r.crawler_runtime_secs == runtime_secs,
        r.node_addrs@ == good_addrs(net.nodes_seq()),
        r.node_network_types@ == good_types(net.nodes_seq()),
        r.node_addrs@.len() == r.num_good_nodes,
        r.node_network_types@.len() == r.node_addrs@.len(),
        r.nodes_indices@.len() == r.node_addrs@.len(),
        forall|k: int|
            0 <= k < r.nodes_indices@.len() ==> #[trigger] r.nodes_indices@[k]@ == adj_row(
                *net,
                r.node_addrs@,
                k,
                r.node_addrs@.len() as int,
            ),
{
    let nodes = net.nodes();
    let n = nodes.len();
    let mut addrs: Vec<NodeAddr> = Vec::new();
    let mut types: Vec<NetworkType> = Vec::new();
    let mut good: usize = 0;
    let mut versioned: usize = 0;
    let mut i: usize = 0;
    proof {
        assert(net.nodes_seq().subrange(0, 0) =~= Seq::<(NodeAddr, KnownNode)>::empty());
    }
    while i < n
        invariant
            nodes@ == net.nodes_seq(),
            n == nodes@.len(),
            i <= n,
            good <= i,
            versioned <= i,
            good == count_where(nodes@.subrange(0, i as int), good_pred()),
            versioned == count_where(nodes@.subrange(0, i as int), versioned_pred()),
            addrs@ == good_addrs(nodes@.subrange(0, i as int)),
            types@ == good_types(nodes@.subrange(0, i as int)),
            addrs@.len() == good,
            types@.len() == good,
        decreases n - i,
    {
        let ghost prefix = nodes@.subrange(0, i as int);
        let ghost prefix1 = nodes@.subrange(0, i + 1);
        proof {
            assert(prefix1.drop_last() =~= prefix);
            assert(prefix1.last() == nodes@[i as int]);
        }
        let is_good = match nodes[i].1.last_connected {
            Some(_) => true,
            None => false,
        };
        if is_good {
            good = good + 1;
            addrs.push(nodes[i].0);
            let t = classify_network_type(nodes[i].0, &nodes[i].1);
            types.push(t);
        }
        match nodes[i].1.protocol_version {
            Some(_) => {
                versioned = versioned + 1;
            }
            None => {},
        }
        i = i + 1;
    }
    proof {
        assert(nodes@.subrange(0, n as int) =~= nodes@);
    }
    let num_good = addrs.len();
    let mut indices: Vec<Vec<usize>> = Vec::new();
    let mut k: usize = 0;
    while k < num_good
        invariant
            nodes@ == net.nodes_seq(),
            net.wf(),
            num_good == addrs@.len(),
            k <= num_good,
            indices@.len() == k,
            forall|kk: int|
                0 <= kk < k ==> #[trigger] indices@[kk]@ == adj_row(
                    *net,
                    addrs@,
                    kk,
                    addrs@.len() as int,
                ),
        decreases num_good - k,
    {
        let mut row: Vec<usize> = Vec::new();
        let mut j: usize = 0;
        while j < num_good
            invariant
                nodes@ == net.nodes_seq(),
                net.wf(),
                num_good == addrs@.len(),
                k < num_good,
                j <= num_good,
                row@ == adj_row(*net, addrs@, k as int, j as int),
            decreases num_good - j,
        {
            if j != k && (net.contains_edge(addrs[k], addrs[j]) || net.contains_edge(
                addrs[j],
                addrs[k],
            )) {
                row.push(j);
            }
            j = j + 1;
        }
        indices.push(row);
        k = k + 1;
    }
    let protocol_versions = version_census(nodes);
    let user_agents = agent_census(nodes);
    NetworkSummary {
        num_known_nodes: n,
        num_good_nodes: good,
        num_known_connections: net.num_connections(),
        num_versions: versioned,
        protocol_versions,
        user_agents,
        crawler_runtime_secs: runtime_secs,
        node_addrs: addrs,
        node_network_types: types,
        nodes_indices: indices,
    }
}

} // verus!
