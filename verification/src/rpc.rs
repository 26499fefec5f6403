//! The read-only RPC payloads and the computations behind them: the tip
//! estimate, aggregate statistics, and the per-node listings. The
//! transport that serves them lives outside the library; these functions
//! work on a snapshot of the record map.

use vstd::prelude::*;

use crate::addr::NodeAddr;
use crate::classify::{
    client_kind, client_kind_spec, is_relevant_zcash_node, lower_of, relevant_node_spec,
    ClientKind, MIN_RELEVANT_HEIGHT,
};
use crate::network::KnownNode;
use vstd::seq_lib::lemma_sorted_unique;
use vstd::relations::sorted_by;
use vstd::relations::total_ordering;
use vstd::arithmetic::div_mod::{lemma_div_is_ordered, lemma_fundamental_div_mod_converse};

verus! {

/// Upper bound on an RPC response body, in bytes.
pub const MAX_RESPONSE_SIZE: u32 = 200_000_000;

/// One row of the `getnodes` listing.
#[derive(Clone, Debug)]
pub struct NodeInfo {
    pub addr: NodeAddr,
    pub protocol_version: Option<u32>,
    pub user_agent: Option<String>,
    pub height: Option<i32>,
    pub services: Option<u64>,
    /// Seconds since the last successful handshake; `u64::MAX` if never.
    pub last_seen_secs: u64,
    pub is_relevant: bool,
    pub is_flux: bool,
    pub client_type: ClientKind,
}

/// The aggregate counts served by `getstats`.
#[derive(Clone, Debug)]
pub struct Stats {
    pub num_known_nodes: usize,
    pub num_contacted_nodes: usize,
    pub num_relevant_zcash_nodes: usize,
    pub num_zcashd_nodes: usize,
    pub num_zebra_nodes: usize,
    pub num_flux_nodes: usize,
    pub num_other_nodes: usize,
    pub tip_height_estimate: i32,
    pub crawler_runtime_secs: u64,
}

/// The `getnodes` payload: the aggregate counts plus the listing.
#[derive(Clone, Debug)]
pub struct NodesResponse {
    pub stats: Stats,
    pub nodes: Vec<NodeInfo>,
}

/// The ascending order on heights.
pub open spec fn i32_leq_fn() -> spec_fn(i32, i32) -> bool {
    |a: i32, b: i32| a <= b
}

/// A height is tip-eligible when it lies strictly above
/// [`MIN_RELEVANT_HEIGHT`].
pub open spec fn tip_eligible(p: (NodeAddr, KnownNode)) -> bool {
    p.1.start_height is Some && p.1.start_height->Some_0 > MIN_RELEVANT_HEIGHT
}

/// The tip-eligible heights of a record snapshot, in snapshot order.
pub open spec fn eligible_heights(s: Seq<(NodeAddr, KnownNode)>) -> Seq<i32>
    decreases s.len(),
{
    if s.len() == 0 {
        Seq::empty()
    } else {
        let rest = eligible_heights(s.drop_last());
        if tip_eligible(s.last()) {
            rest.push(s.last().1.start_height->Some_0)
        } else {
            rest
        }
    }
}

/// The tip estimate: the 95th-percentile eligible height, or
/// [`MIN_RELEVANT_HEIGHT`] when no height is eligible.
#[verifier::opaque]
pub open spec fn tip_spec(s: Seq<(NodeAddr, KnownNode)>) -> i32 {
    let hs = eligible_heights(s);
    if hs.len() == 0 {
        MIN_RELEVANT_HEIGHT
    } else {
        hs.sort_by(i32_leq_fn())[(hs.len() * 95 / 100) as int]
    }
}

/// The order on heights is a total ordering.
proof fn lemma_i32_leq_total()
    ensures
        total_ordering(i32_leq_fn()),
{
}

/// Sorts a vector of heights ascending; the result is the canonical
/// sorted permutation of the input.
fn sort_i32(v: &mut Vec<i32>)
    ensures
        final(v)@ == old(v)@.sort_by(i32_leq_fn()),
{
    let ghost orig = v@;
    let n = v.len();
    let mut i: usize = 1;
    if n < 2 {
        proof {
            lemma_i32_leq_total();
            orig.lemma_sort_by_ensures(i32_leq_fn());
            lemma_sorted_unique(v@, orig.sort_by(i32_leq_fn()), i32_leq_fn());
        }
        return ;
    }
    while i < n
        invariant
            n == v@.len(),
            1 <= i <= n,
            v@.to_multiset() == orig.to_multiset(),
            forall|a: int, b: int| 0 <= a < b < i ==> v@[a] <= v@[b],
        decreases n - i,
    {
        let mut j: usize = i;
        while j > 0 && v[j - 1] > v[j]
            invariant
                n == v@.len(),
                0 <= j <= i < n,
                v@.to_multiset() == orig.to_multiset(),
                forall|a: int, b: int| 0 <= a < b <= i && b != j ==> v@[a] <= v@[b],
            decreases j,
        {
            let x = v[j - 1];
            let y = v[j];
            let ghost before = v@;
            v[j - 1] = y;
            v[j] = x;
            proof {
                broadcast use vstd::seq_lib::to_multiset_update;
                broadcast use vstd::seq_lib::group_to_multiset_ensures;

                assert(v@ == before.update(j - 1, y).update(j as int, x));
                assert(v@.to_multiset() =~= before.to_multiset());
            }
            j = j - 1;
        }
        i = i + 1;
    }
    proof {
        assert(sorted_by(v@, i32_leq_fn()));
        lemma_i32_leq_total();
        orig.lemma_sort_by_ensures(i32_leq_fn());
        lemma_sorted_unique(v@, orig.sort_by(i32_leq_fn()), i32_leq_fn());
    }
}

/// The tip estimate over a snapshot of the record map; see [`tip_spec`].
pub fn get_tip(nodes: &Vec<(NodeAddr, KnownNode)>) -> (r: i32)
    ensures
        r == tip_spec(nodes@),
{
    let n = nodes.len();
    let mut hs: Vec<i32> = Vec::new();
    let mut i: usize = 0;
    proof {
        reveal(tip_spec);
        assert(nodes@.subrange(0, 0) =~= Seq::<(NodeAddr, KnownNode)>::empty());
    }
    while i < n
        invariant
            n == nodes@.len(),
            i <= n,
            hs@ == eligible_heights(nodes@.subrange(0, i as int)),
        decreases n - i,
    {
        let ghost prefix = nodes@.subrange(0, i as int);
        let ghost prefix1 = nodes@.subrange(0, i + 1);
        proof {
            assert(prefix1.drop_last() =~= prefix);
            assert(prefix1.last() == nodes@[i as int]);
        }
        match nodes[i].1.start_height {
            Some(h) => {
                if h > MIN_RELEVANT_HEIGHT {
                    hs.push(h);
                }
            }
            None => {},
        }
        i = i + 1;
    }
    proof {
        assert(nodes@.subrange(0, n as int) =~= nodes@);
    }
    let len = hs.len();
    if len == 0 {
        return MIN_RELEVANT_HEIGHT;
    }
    sort_i32(&mut hs);
    let idx_wide: u128 = (len as u128) * 95 / 100;
    proof {
        let l = len as int;
        lemma_fundamental_div_mod_converse(100 * (l - 1) + 99, 100, l - 1, 99);
        assert(95 * l <= 100 * (l - 1) + 99);
        lemma_div_is_ordered(95 * l, 100 * (l - 1) + 99, 100);
        assert(l * 95 / 100 <= l - 1);
        broadcast use vstd::seq_lib::group_to_multiset_ensures;

        lemma_i32_leq_total();
        eligible_heights(nodes@).lemma_sort_by_ensures(i32_leq_fn());
        assert(hs@.to_multiset() == eligible_heights(nodes@).to_multiset());
        assert(hs@.to_multiset().len() == hs@.len());
        assert(eligible_heights(nodes@).to_multiset().len() == eligible_heights(nodes@).len());
        assert(hs@.len() == len);
    }
    let idx = idx_wide as usize;
    hs[idx]
}

/// How many records of `s` satisfy `p`.
pub open spec fn count_where(
    s: Seq<(NodeAddr, KnownNode)>,
    p: spec_fn((NodeAddr, KnownNode)) -> bool,
) -> nat
    decreases s.len(),
{
    if s.len() == 0 {
        0
    } else {
        count_where(s.drop_last(), p) + if p(s.last()) {
            1nat
        } else {
            0nat
        }
    }
}

/// The informational client family of a record's user agent; meaningful
/// only when the agent is present.
pub open spec fn node_kind(n: KnownNode) -> ClientKind {
    client_kind_spec(lower_of(n.user_agent->Some_0@))
}

/// A record whose user agent has been seen.
pub open spec fn contacted_pred() -> spec_fn((NodeAddr, KnownNode)) -> bool {
    |p: (NodeAddr, KnownNode)| p.1.user_agent is Some
}

/// A contacted record of the given informational family.
pub open spec fn kind_pred(k: ClientKind) -> spec_fn((NodeAddr, KnownNode)) -> bool {
    |p: (NodeAddr, KnownNode)| p.1.user_agent is Some && node_kind(p.1) == k
}

/// A relevant record, against the given tip estimate.
pub open spec fn relevant_pred(tip: i32) -> spec_fn((NodeAddr, KnownNode)) -> bool {
    |p: (NodeAddr, KnownNode)| relevant_node_spec(p.1, tip)
}

/// The rows `getnodes` lists: every contacted record when flux entries
/// are requested, else only relevant zcashd and zebra records.
pub open spec fn getnodes_pred(tip: i32, include_flux: bool) -> spec_fn(
    (NodeAddr, KnownNode),
) -> bool {
    |p: (NodeAddr, KnownNode)|
        p.1.user_agent is Some && (include_flux || (relevant_node_spec(p.1, tip) && (node_kind(p.1)
            == ClientKind::Zcashd || node_kind(p.1) == ClientKind::Zebra)))
}

/// What `getstats` reports over a snapshot: the record count, the count
/// per client family, the contacted and relevant counts, the tip
/// estimate, and the runtime.
pub open spec fn stats_ok(st: Stats, s: Seq<(NodeAddr, KnownNode)>, runtime_secs: u64) -> bool {
    &&& st.num_known_nodes == s.len()
    &&& st.num_contacted_nodes == count_where(s, contacted_pred())
    &&& st.num_zcashd_nodes == count_where(s, kind_pred(ClientKind::Zcashd))
    &&& st.num_zebra_nodes == count_where(s, kind_pred(ClientKind::Zebra))
    &&& st.num_flux_nodes == count_where(s, kind_pred(ClientKind::Flux))
    &&& st.num_other_nodes == count_where(s, kind_pred(ClientKind::Other))
    &&& st.num_relevant_zcash_nodes == count_where(s, relevant_pred(tip_spec(s)))
    &&& st.tip_height_estimate == tip_spec(s)
    &&& st.crawler_runtime_secs == runtime_secs
}

/// The aggregate counts over a snapshot; see [`stats_ok`].
pub fn compute_stats(nodes: &Vec<(NodeAddr, KnownNode)>, runtime_secs: u64) -> (r: Stats)
    ensures
        stats_ok(r, nodes@, runtime_secs),
{
    let tip = get_tip(nodes);
    let n = nodes.len();
    let mut contacted: usize = 0;
    let mut zd: usize = 0;
    let mut zb: usize = 0;
    let mut fx: usize = 0;
    let mut ot: usize = 0;
    let mut relevant: usize = 0;
    let mut i: usize = 0;
    proof {
        assert(nodes@.subrange(0, 0) =~= Seq::<(NodeAddr, KnownNode)>::empty());
    }
    while i < n
        invariant
            n == nodes@.len(),
            i <= n,
            tip == tip_spec(nodes@),
            contacted <= i && zd <= i && zb <= i && fx <= i && ot <= i && relevant <= i,
            contacted == count_where(nodes@.subrange(0, i as int), contacted_pred()),
            zd == count_where(nodes@.subrange(0, i as int), kind_pred(ClientKind::Zcashd)),
            zb == count_where(nodes@.subrange(0, i as int), kind_pred(ClientKind::Zebra)),
            fx == count_where(nodes@.subrange(0, i as int), kind_pred(ClientKind::Flux)),
            ot == count_where(nodes@.subrange(0, i as int), kind_pred(ClientKind::Other)),
            relevant == count_where(nodes@.subrange(0, i as int), relevant_pred(tip)),
        decreases n - i,
    {
        let ghost prefix = nodes@.subrange(0, i as int);
        let ghost prefix1 = nodes@.subrange(0, i + 1);
        proof {
            assert(prefix1.drop_last() =~= prefix);
            assert(prefix1.last() == nodes@[i as int]);
        }
        match &nodes[i].1.user_agent {
            Some(ua) => {
                contacted = contacted + 1;
                let kind = client_kind(ua.as_str());
                match kind {
                    ClientKind::Zcashd => {
                        zd = zd + 1;
                    }
                    ClientKind::Zebra => {
                        zb = zb + 1;
                    }
                    ClientKind::Flux => {
                        fx = fx + 1;
                    }
                    ClientKind::Other => {
                        ot = ot + 1;
                    }
                }
                if is_relevant_zcash_node(&nodes[i].1, tip) {
                    relevant = relevant + 1;
                }
            }
            None => {},
        }
        i = i + 1;
    }
    proof {
        assert(nodes@.subrange(0, n as int) =~= nodes@);
    }
    Stats {
        num_known_nodes: n,
        num_contacted_nodes: contacted,
        num_relevant_zcash_nodes: relevant,
        num_zcashd_nodes: zd,
        num_zebra_nodes: zb,
        num_flux_nodes: fx,
        num_other_nodes: ot,
        tip_height_estimate: tip,
        crawler_runtime_secs: runtime_secs,
    }
}

/// The `getstats` counts never exceed the record count, and the per-family
/// counts partition the contacted records.
pub proof fn lemma_stats_bounds(st: Stats, s: Seq<(NodeAddr, KnownNode)>, runtime_secs: u64)
    requires
        stats_ok(st, s, runtime_secs),
    ensures
        st.num_contacted_nodes <= st.num_known_nodes,
        st.num_zcashd_nodes + st.num_zebra_nodes + st.num_flux_nodes + st.num_other_nodes
            == st.num_contacted_nodes,
{
    lemma_count_bounds(s);
}

proof fn lemma_count_bounds(s: Seq<(NodeAddr, KnownNode)>)
    ensures
        count_where(s, contacted_pred()) <= s.len(),
        count_where(s, kind_pred(ClientKind::Zcashd)) + count_where(
            s,
            kind_pred(ClientKind::Zebra),
        ) + count_where(s, kind_pred(ClientKind::Flux)) + count_where(
            s,
            kind_pred(ClientKind::Other),
        ) == count_where(s, contacted_pred()),
    decreases s.len(),
{
    if s.len() > 0 {
        lemma_count_bounds(s.drop_last());
    }
}

/// Seconds since the record's last successful handshake, at time `now`;
/// `u64::MAX` for a record that never connected, zero for a timestamp in
/// the future.
pub open spec fn last_seen_secs_spec(n: KnownNode, now: u64) -> u64 {
    match n.last_connected {
        Some(t) => if now >= t {
            (now - t) as u64
        } else {
            0
        },
        None => u64::MAX,
    }
}

/// The listing row a record produces: every plain field copied, the
/// relevance verdict against the tip, and the flux flag and client family
/// from the client taxonomy.
pub open spec fn info_of(p: (NodeAddr, KnownNode), tip: i32, now: u64) -> NodeInfo {
    NodeInfo {
        addr: p.0,
        protocol_version: p.1.protocol_version,
        user_agent: p.1.user_agent,
        height: p.1.start_height,
        services: p.1.services,
        last_seen_secs: last_seen_secs_spec(p.1, now),
        is_relevant: relevant_node_spec(p.1, tip),
        is_flux: p.1.user_agent is Some && node_kind(p.1) == ClientKind::Flux,
        client_type: if p.1.user_agent is Some {
            node_kind(p.1)
        } else {
            ClientKind::Other
        },
    }
}

/// The rows of the records that pass the `getnodes` filter, in snapshot
/// order.
pub open spec fn expected_rows(
    s: Seq<(NodeAddr, KnownNode)>,
    tip: i32,
    now: u64,
    include_flux: bool,
) -> Seq<NodeInfo>
    decreases s.len(),
{
    if s.len() == 0 {
        Seq::empty()
    } else {
        let rest = expected_rows(s.drop_last(), tip, now, include_flux);
        if getnodes_pred(tip, include_flux)(s.last()) {
            rest.push(info_of(s.last(), tip, now))
        } else {
            rest
        }
    }
}

/// The listing order: relevant rows first, then ascending by seconds
/// since last contact.
pub open spec fn info_le_fn() -> spec_fn(NodeInfo, NodeInfo) -> bool {
    |a: NodeInfo, b: NodeInfo|
        (a.is_relevant && !b.is_relevant) || (a.is_relevant == b.is_relevant && a.last_seen_secs
            <= b.last_seen_secs)
}

fn info_le(a: &NodeInfo, b: &NodeInfo) -> (r: bool)
    ensures
        r == info_le_fn()(*a, *b),
{
    (a.is_relevant && !b.is_relevant) || (a.is_relevant == b.is_relevant && a.last_seen_secs
        <= b.last_seen_secs)
}

/// Inserting a row anywhere adds exactly that row to the listing's
/// multiset of rows.
proof fn lemma_insert_multiset(pre: Seq<NodeInfo>, post: Seq<NodeInfo>, pos: int, x: NodeInfo)
    requires
        0 <= pos <= pre.len(),
        post == pre.insert(pos, x),
    ensures
        post.to_multiset() == pre.to_multiset().insert(x),
{
    broadcast use vstd::seq_lib::group_to_multiset_ensures;

    let l = pre.subrange(0, pos);
    let rest = pre.subrange(pos, pre.len() as int);
    assert(post =~= l.push(x) + rest);
    vstd::seq_lib::lemma_multiset_commutative(l.push(x), rest);
    vstd::seq_lib::lemma_multiset_commutative(l, rest);
    assert(l + rest =~= pre);
    assert(l.push(x).to_multiset() =~= l.to_multiset().insert(x));
    assert(post.to_multiset() =~= pre.to_multiset().insert(x));
}

/// Inserting at the first position whose row does not precede `x` keeps
/// the listing ordered.
proof fn lemma_insert_sorted(pre: Seq<NodeInfo>, post: Seq<NodeInfo>, pos: int, x: NodeInfo)
    requires
        sorted_by(pre, info_le_fn()),
        0 <= pos <= pre.len(),
        post == pre.insert(pos, x),
        forall|m: int| 0 <= m < pos ==> info_le_fn()(#[trigger] pre[m], x),
        pos < pre.len() ==> !info_le_fn()(pre[pos], x),
    ensures
        sorted_by(post, info_le_fn()),
        post.len() == pre.len() + 1,
        post[pos] == x,
{
    pre.insert_ensures(pos, x);
    assert forall|a: int, b: int| 0 <= a < b < post.len() implies #[trigger] info_le_fn()(
        post[a],
        post[b],
    ) by {
        if a < pos && b < pos {
            assert(post[a] == pre[a] && post[b] == pre[b]);
        } else if a < pos && b == pos {
            assert(post[a] == pre[a]);
        } else if a < pos && b > pos {
            assert(post[a] == pre[a] && post[(b - 1) + 1] == pre[b - 1]);
            if b - 1 > a {
                assert(info_le_fn()(pre[a], pre[b - 1]));
            } else {
                assert(post[b] == pre[a]);
                assert(info_le_fn()(pre[a], pre[a]));
            }
        } else if a == pos && b > pos {
            assert(post[(b - 1) + 1] == pre[b - 1]);
            assert(!info_le_fn()(pre[pos], x));
            assert(info_le_fn()(x, pre[pos]));
            if b - 1 > pos {
                assert(info_le_fn()(pre[pos], pre[b - 1]));
            }
        } else {
            assert(post[(a - 1) + 1] == pre[a - 1] && post[(b - 1) + 1] == pre[b - 1]);
            assert(info_le_fn()(pre[a - 1], pre[b - 1]));
        }
    }
}

/// Puts `x` where it belongs in an already ordered listing.
fn insert_sorted(out: &mut Vec<NodeInfo>, x: NodeInfo)
    requires
        sorted_by(old(out)@, info_le_fn()),
    ensures
        sorted_by(final(out)@, info_le_fn()),
        final(out)@.len() == old(out)@.len() + 1,
        final(out)@.to_multiset() == old(out)@.to_multiset().insert(x),
{
    let ghost pre = out@;
    let n = out.len();
    let mut pos: usize = 0;
    while pos < n && info_le(&out[pos], &x)
        invariant
            n == out@.len(),
            out@ == pre,
            pos <= n,
            forall|m: int| 0 <= m < pos ==> info_le_fn()(#[trigger] out@[m], x),
        decreases n - pos,
    {
        pos = pos + 1;
    }
    out.insert(pos, x);
    proof {
        lemma_insert_sorted(pre, out@, pos as int, x);
        lemma_insert_multiset(pre, out@, pos as int, x);
    }
}

/// Orders a listing relevant-first, then by seconds since last contact;
/// the result holds exactly the rows of the input.
fn sort_infos(v: Vec<NodeInfo>) -> (r: Vec<NodeInfo>)
    ensures
        sorted_by(r@, info_le_fn()),
        r@.to_multiset() == v@.to_multiset(),
        r@.len() == v@.len(),
{
    proof {
        broadcast use vstd::seq_lib::group_to_multiset_ensures;

    }
    let ghost orig = v@;
    let mut v = v;
    let mut out: Vec<NodeInfo> = Vec::new();
    proof {
        assert(out@.to_multiset().add(v@.to_multiset()) =~= orig.to_multiset());
    }
    while v.len() > 0
        invariant
            sorted_by(out@, info_le_fn()),
            out@.len() + v@.len() == orig.len(),
            out@.to_multiset().add(v@.to_multiset()) == orig.to_multiset(),
        decreases v@.len(),
    {
        let ghost pre_v = v@;
        let ghost pre_out = out@;
        let x = match v.pop() {
            Some(x) => x,
            None => {
                proof {
                    assert(false);
                }
                return out;
            }
        };
        proof {
            broadcast use vstd::seq_lib::group_to_multiset_ensures;

            assert(pre_v.remove(pre_v.len() - 1) =~= v@);
            assert(v@.to_multiset() == pre_v.to_multiset().remove(x));
            assert(pre_v.contains(x));
            assert(pre_v.to_multiset().count(x) > 0);
            assert(pre_v.to_multiset() =~= v@.to_multiset().insert(x));
        }
        insert_sorted(&mut out, x);
        proof {
            broadcast use vstd::seq_lib::group_to_multiset_ensures;

            assert(out@.to_multiset() == pre_out.to_multiset().insert(x));
            assert(out@.to_multiset().add(v@.to_multiset()) =~= orig.to_multiset());
        }
    }
    proof {
        broadcast use vstd::seq_lib::group_to_multiset_ensures;

        assert(v@.len() == 0);
        assert(v@.to_multiset() =~= vstd::multiset::Multiset::<NodeInfo>::empty());
        assert(out@.to_multiset() =~= orig.to_multiset());
        assert(out@.to_multiset().len() == out@.len());
        assert(orig.to_multiset().len() == orig.len());
    }
    out
}

/// The `getnodes` listing and its aggregate counts, over a snapshot taken
/// at time `now`. With `include_flux` every contacted record is listed;
/// otherwise only relevant, non-flux zcashd and zebra records appear.
/// The listing holds exactly the rows of the passing records
/// ([`expected_rows`]), ordered relevant-first, then by seconds since
/// last contact.
pub fn build_nodes_response(
    nodes: &Vec<(NodeAddr, KnownNode)>,
    runtime_secs: u64,
    now: u64,
    include_flux: bool,
) -> (r: NodesResponse)
    ensures
        stats_ok(r.stats, nodes@, runtime_secs),
        sorted_by(r.nodes@, info_le_fn()),
        r.nodes@.to_multiset() == expected_rows(
            nodes@,
            tip_spec(nodes@),
            now,
            include_flux,
        ).to_multiset(),
        r.nodes@.len() == expected_rows(nodes@, tip_spec(nodes@), now, include_flux).len(),
{
    let stats = compute_stats(nodes, runtime_secs);
    let tip = stats.tip_height_estimate;
    let n = nodes.len();
    let mut out: Vec<NodeInfo> = Vec::new();
    let mut i: usize = 0;
    proof {
        assert(nodes@.subrange(0, 0) =~= Seq::<(NodeAddr, KnownNode)>::empty());
    }
    while i < n
        invariant
            n == nodes@.len(),
            i <= n,
            tip == tip_spec(nodes@),
            stats_ok(stats, nodes@, runtime_secs),
            out@ == expected_rows(nodes@.subrange(0, i as int), tip, now, include_flux),
        decreases n - i,
    {
        let ghost prefix = nodes@.subrange(0, i as int);
        let ghost prefix1 = nodes@.subrange(0, i + 1);
        proof {
            assert(prefix1.drop_last() =~= prefix);
            assert(prefix1.last() == nodes@[i as int]);
        }
        match &nodes[i].1.user_agent {
            Some(ua) => {
                let kind = client_kind(ua.as_str());
                let relevant = is_relevant_zcash_node(&nodes[i].1, tip);
                let listed = include_flux || (relevant && (kind == ClientKind::Zcashd || kind
                    == ClientKind::Zebra));
                if listed {
                    let last_seen = match nodes[i].1.last_connected {
                        Some(t) => {
                            if now >= t {
                                now - t
                            } else {
                                0
                            }
                        }
                        None => u64::MAX,
                    };
                    let info = NodeInfo {
                        addr: nodes[i].0,
                        protocol_version: nodes[i].1.protocol_version,
                        user_agent: Some(ua.clone()),
                        height: nodes[i].1.start_height,
                        services: nodes[i].1.services,
                        last_seen_secs: last_seen,
                        is_relevant: relevant,
                        is_flux: kind == ClientKind::Flux,
                        client_type: kind,
                    };
                    proof {
                        reveal(getnodes_pred);
                        assert(getnodes_pred(tip, include_flux)(nodes@[i as int]));
                        assert(info == info_of(nodes@[i as int], tip, now));
                    }
                    out.push(info);
                } else {
                    proof {
                        reveal(getnodes_pred);
                        assert(!getnodes_pred(tip, include_flux)(nodes@[i as int]));
                    }
                }
            }
            None => {
                proof {
                    reveal(getnodes_pred);
                    assert(!getnodes_pred(tip, include_flux)(nodes@[i as int]));
                }
            }
        }
        i = i + 1;
    }
    proof {
        assert(nodes@.subrange(0, n as int) =~= nodes@);
    }
    let sorted = sort_infos(out);
    NodesResponse { stats, nodes: sorted }
}

} // verus!
