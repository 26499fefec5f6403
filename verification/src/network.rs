//! The known-network state store.
//!
//! A map of peer records keyed by socket address, together with a set of
//! directed "A saw B" edges, each timestamped so that stale edges can be
//! evicted. Records are created on first mention of an address and are
//! never deleted.

use vstd::prelude::*;

use crate::addr::NodeAddr;

verus! {

/// Edges whose `last_seen` is older than this many seconds are evicted.
pub const LAST_SEEN_CUTOFF: u64 = 600;

/// The last known transport state of a peer; a lazily updated shadow of
/// the transport layer's truth.
#[derive(Clone, Copy, PartialEq, Eq, Structural, Debug)]
pub enum ConnectionState {
    Disconnected,
    Connected,
}

impl Default for ConnectionState {
    fn default() -> (r: Self)
        ensures
            r == ConnectionState::Disconnected,
    {
        ConnectionState::Disconnected
    }
}

/// Everything the crawler knows about one remote address.
#[derive(Clone, Debug)]
pub struct KnownNode {
    /// Timestamp (seconds) of the last successful handshake.
    pub last_connected: Option<u64>,
    /// Milliseconds from dial start to handshake completion.
    pub handshake_time: Option<u64>,
    pub protocol_version: Option<u32>,
    /// The raw advertised user agent, delimiters included.
    pub user_agent: Option<String>,
    pub start_height: Option<i32>,
    /// Service-bits bitmask.
    pub services: Option<u64>,
    /// Bumped on every failed dial, zeroed on success; saturates at 255.
    pub connection_failures: u8,
    pub state: ConnectionState,
}

/// The record a fresh address starts out with: nothing known, disconnected.
pub open spec fn fresh_node() -> KnownNode {
    KnownNode {
        last_connected: None,
        handshake_time: None,
        protocol_version: None,
        user_agent: None,
        start_height: None,
        services: None,
        connection_failures: 0,
        state: ConnectionState::Disconnected,
    }
}

impl Default for KnownNode {
    fn default() -> (r: Self)
        ensures
            r == fresh_node(),
    {
        KnownNode {
            last_connected: None,
            handshake_time: None,
            protocol_version: None,
            user_agent: None,
            start_height: None,
            services: None,
            connection_failures: 0,
            state: ConnectionState::Disconnected,
        }
    }
}

/// A directed "A saw B" edge, timestamped for eviction. Two edges are the
/// same edge iff their endpoint pair is the same; `last_seen` refreshes on
/// re-observation.
#[derive(Clone, Copy, PartialEq, Eq, Structural, Debug)]
pub struct KnownConnection {
    pub a: NodeAddr,
    pub b: NodeAddr,
    /// Timestamp (seconds) of the most recent observation of this edge.
    pub last_seen: u64,
}

/// How a record changes when a dial finishes: a success records the
/// handshake and zeroes the failure count, a failure bumps it (saturating).
pub open spec fn dial_update(rec: KnownNode, now: u64, elapsed_ms: u64, success: bool) -> KnownNode {
    if success {
        KnownNode {
            last_connected: Some(now),
            handshake_time: Some(elapsed_ms),
            connection_failures: 0,
            state: ConnectionState::Connected,
            ..rec
        }
    } else {
        KnownNode {
            connection_failures: if rec.connection_failures == 255 {
                255u8
            } else {
                (rec.connection_failures + 1) as u8
            },
            ..rec
        }
    }
}

// Helper predicates over the underlying sequences.

pub open spec fn node_has_key(s: Seq<(NodeAddr, KnownNode)>, a: NodeAddr) -> bool {
    exists|i: int| 0 <= i < s.len() && s[i].0 == a
}

pub open spec fn node_keys_unique(s: Seq<(NodeAddr, KnownNode)>) -> bool {
    forall|i: int, j: int|
        0 <= i < s.len() && 0 <= j < s.len() && s[i].0 == s[j].0 ==> i == j
}

pub open spec fn node_index_of(s: Seq<(NodeAddr, KnownNode)>, a: NodeAddr) -> int {
    choose|i: int| 0 <= i < s.len() && s[i].0 == a
}

pub open spec fn node_value(s: Seq<(NodeAddr, KnownNode)>, a: NodeAddr) -> KnownNode {
    s[node_index_of(s, a)].1
}

pub open spec fn edge_has_pair(s: Seq<KnownConnection>, a: NodeAddr, b: NodeAddr) -> bool {
    exists|i: int| 0 <= i < s.len() && s[i].a == a && s[i].b == b
}

pub open spec fn edge_pairs_unique(s: Seq<KnownConnection>) -> bool {
    forall|i: int, j: int|
        0 <= i < s.len() && 0 <= j < s.len() && s[i].a == s[j].a && s[i].b == s[j].b ==> i == j
}

pub open spec fn edge_index_of(s: Seq<KnownConnection>, a: NodeAddr, b: NodeAddr) -> int {
    choose|i: int| 0 <= i < s.len() && s[i].a == a && s[i].b == b
}

pub open spec fn edge_seen(s: Seq<KnownConnection>, a: NodeAddr, b: NodeAddr) -> u64 {
    s[edge_index_of(s, a, b)].last_seen
}

/// The known-network store: one record per known address, plus the
/// timestamped edge set. Concurrency is the caller's business — the whole
/// store sits behind one exclusion primitive there.
pub struct KnownNetwork {
    nodes: Vec<(NodeAddr, KnownNode)>,
    connections: Vec<KnownConnection>,
}

impl KnownNetwork {
    pub closed spec fn nodes_seq(self) -> Seq<(NodeAddr, KnownNode)> {
        self.nodes@
    }

    pub closed spec fn conns_seq(self) -> Seq<KnownConnection> {
        self.connections@
    }

    pub open spec fn has_node(self, a: NodeAddr) -> bool {
        node_has_key(self.nodes_seq(), a)
    }

    pub open spec fn node_of(self, a: NodeAddr) -> KnownNode {
        node_value(self.nodes_seq(), a)
    }

    pub open spec fn has_edge(self, a: NodeAddr, b: NodeAddr) -> bool {
        edge_has_pair(self.conns_seq(), a, b)
    }

    pub open spec fn edge_last_seen(self, a: NodeAddr, b: NodeAddr) -> u64 {
        edge_seen(self.conns_seq(), a, b)
    }

    /// The record map as a mathematical map.
    pub open spec fn nodes_map(self) -> Map<NodeAddr, KnownNode> {
        Map::new(|a: NodeAddr| self.has_node(a), |a: NodeAddr| self.node_of(a))
    }

    /// Well-formedness: keys and edge pairs are unique, and every edge's
    /// endpoints exist as record keys.
    pub open spec fn wf(self) -> bool {
        &&& node_keys_unique(self.nodes_seq())
        &&& edge_pairs_unique(self.conns_seq())
        &&& forall|k: int|
            0 <= k < self.conns_seq().len() ==> node_has_key(
                self.nodes_seq(),
                #[trigger] self.conns_seq()[k].a,
            ) && node_has_key(self.nodes_seq(), self.conns_seq()[k].b)
    }

    pub fn new() -> (r: KnownNetwork)
        ensures
            r.wf(),
            r.nodes_seq().len() == 0,
            r.conns_seq().len() == 0,
    {
        KnownNetwork { nodes: Vec::new(), connections: Vec::new() }
    }

    /// First position of `addr` among the records, if any.
    fn find_node(&self, addr: NodeAddr) -> (r: Option<usize>)
        ensures
            match r {
                Some(i) => i < self.nodes_seq().len() && self.nodes_seq()[i as int].0 == addr,
                None => !self.has_node(addr),
            },
    {
        let n = self.nodes.len();
        let mut i: usize = 0;
        while i < n
            invariant
                n == self.nodes_seq().len(),
                i <= n,
                forall|k: int| 0 <= k < i ==> self.nodes_seq()[k].0 != addr,
            decreases n - i,
        {
            if self.nodes[i].0 == addr {
                return Some(i);
            }
            i = i + 1;
        }
        None
    }

    fn find_edge(&self, a: NodeAddr, b: NodeAddr) -> (r: Option<usize>)
        ensures
            match r {
                Some(i) => i < self.conns_seq().len() && self.conns_seq()[i as int].a == a
                    && self.conns_seq()[i as int].b == b,
                None => !self.has_edge(a, b),
            },
    {
        let n = self.connections.len();
        let mut i: usize = 0;
        while i < n
            invariant
                n == self.conns_seq().len(),
                i <= n,
                forall|k: int|
                    0 <= k < i ==> !(self.conns_seq()[k].a == a && self.conns_seq()[k].b == b),
            decreases n - i,
        {
            if self.connections[i].a == a && self.connections[i].b == b {
                return Some(i);
            }
            i = i + 1;
        }
        None
    }

    /// Creates the record for `addr` if it is missing; an existing record
    /// is left exactly as it was.
    fn ensure_node(&mut self, addr: NodeAddr)
        requires
            node_keys_unique(old(self).nodes_seq()),
        ensures
            node_keys_unique(final(self).nodes_seq()),
            final(self).conns_seq() == old(self).conns_seq(),
            forall|x: NodeAddr| #[trigger] final(self).has_node(x) <==> old(self).has_node(x) || x == addr,
            forall|x: NodeAddr|
                old(self).has_node(x) ==> #[trigger] final(self).node_of(x) == old(self).node_of(x),
            !old(self).has_node(addr) ==> final(self).node_of(addr) == fresh_node(),
    {
        match self.find_node(addr) {
            Some(_) => {
                proof {
                    lemma_unchanged_nodes(old(self).nodes_seq(), self.nodes_seq());
                }
            }
            None => {
                let ghost pre = self.nodes_seq();
                self.nodes.push((addr, KnownNode::default()));
                proof {
                    lemma_push_node(pre, self.nodes_seq(), addr, fresh_node());
                }
            }
        }
    }

    /// Inserts the edge `(a, b)` or refreshes its `last_seen`.
    fn upsert_edge(&mut self, a: NodeAddr, b: NodeAddr, now: u64)
        requires
            edge_pairs_unique(old(self).conns_seq()),
        ensures
            edge_pairs_unique(final(self).conns_seq()),
            final(self).nodes_seq() == old(self).nodes_seq(),
            forall|x: NodeAddr, y: NodeAddr|
                #[trigger] final(self).has_edge(x, y) <==> old(self).has_edge(x, y) || (x == a && y
                    == b),
            forall|x: NodeAddr, y: NodeAddr|
                old(self).has_edge(x, y) && !(x == a && y == b) ==> #[trigger] final(self).edge_last_seen(x, y) == old(self).edge_last_seen(x, y),
            final(self).edge_last_seen(a, b) == now,
            final(self).conns_seq().len() <= old(self).conns_seq().len() + 1,
            forall|k: int|
                0 <= k < final(self).conns_seq().len() ==> (#[trigger] final(self).conns_seq()[k].a
                    == a && final(self).conns_seq()[k].b == b) || (exists|j: int|
                    0 <= j < old(self).conns_seq().len() && old(self).conns_seq()[j].a == final(self).conns_seq()[k].a && old(self).conns_seq()[j].b == final(self).conns_seq()[k].b),
    {
        let ghost pre = self.conns_seq();
        match self.find_edge(a, b) {
            Some(i) => {
                self.connections[i] = KnownConnection { a, b, last_seen: now };
                proof {
                    lemma_update_edge(pre, self.conns_seq(), i as int, a, b, now);
                }
            }
            None => {
                self.connections.push(KnownConnection { a, b, last_seen: now });
                proof {
                    lemma_push_edge(pre, self.conns_seq(), a, b, now);
                }
            }
        }
    }
}

/// Everything `add_addrs` does: `src` and every advertised address gain a
/// record (fresh unless already known, existing records untouched), and the
/// edge `(src, a)` exists for every advertised `a`, stamped `now`; all other
/// edges are untouched.
pub open spec fn add_addrs_rel(
    pre: KnownNetwork,
    post: KnownNetwork,
    src: NodeAddr,
    addrs: Seq<NodeAddr>,
    now: u64,
) -> bool {
    &&& forall|x: NodeAddr|
        #[trigger] post.has_node(x) <==> pre.has_node(x) || x == src || addrs.contains(x)
    &&& forall|x: NodeAddr| pre.has_node(x) ==> #[trigger] post.node_of(x) == pre.node_of(x)
    &&& forall|x: NodeAddr|
        !pre.has_node(x) && #[trigger] post.has_node(x) ==> post.node_of(x) == fresh_node()
    &&& forall|x: NodeAddr, y: NodeAddr|
        #[trigger] post.has_edge(x, y) <==> pre.has_edge(x, y) || (x == src && addrs.contains(y))
    &&& forall|x: NodeAddr, y: NodeAddr|
        pre.has_edge(x, y) && !(x == src && addrs.contains(y)) ==> #[trigger] post.edge_last_seen(
            x,
            y,
        ) == pre.edge_last_seen(x, y)
    &&& forall|y: NodeAddr| addrs.contains(y) ==> #[trigger] post.edge_last_seen(src, y) == now
}

impl KnownNetwork {
    /// Ingests one ADDR observation: records the edge `(src, a)` for every
    /// `a` in `addrs` with `last_seen = now`, then makes sure `src` and all
    /// of `addrs` exist as records.
    pub fn add_addrs(&mut self, src: NodeAddr, addrs: &Vec<NodeAddr>, now: u64)
        requires
            old(self).wf(),
        ensures
            final(self).wf(),
            add_addrs_rel(*old(self), *final(self), src, addrs@, now),
    {
        let ghost pre = *self;
        let n = addrs.len();
        let mut i: usize = 0;
        while i < n
            invariant
                n == addrs@.len(),
                i <= n,
                edge_pairs_unique(self.conns_seq()),
                self.nodes_seq() == pre.nodes_seq(),
                node_keys_unique(self.nodes_seq()),
                forall|x: NodeAddr, y: NodeAddr|
                    #[trigger] self.has_edge(x, y) <==> pre.has_edge(x, y) || (x == src && exists|
                        k: int,
                    |
                        0 <= k < i && addrs@[k] == y),
                forall|x: NodeAddr, y: NodeAddr|
                    pre.has_edge(x, y) && !(x == src && exists|k: int| 0 <= k < i && addrs@[k] == y)
                        ==> #[trigger] self.edge_last_seen(x, y) == pre.edge_last_seen(x, y),
                forall|k: int|
                    0 <= k < i ==> #[trigger] self.edge_last_seen(src, addrs@[k]) == now,
                forall|k: int|
                    0 <= k < self.conns_seq().len() ==> (#[trigger] self.conns_seq()[k].a == src
                        && exists|j: int| 0 <= j < i && addrs@[j] == self.conns_seq()[k].b) || (
                    exists|j: int|
                        0 <= j < pre.conns_seq().len() && pre.conns_seq()[j].a
                            == self.conns_seq()[k].a && pre.conns_seq()[j].b
                            == self.conns_seq()[k].b),
            decreases n - i,
        {
            let a = addrs[i];
            self.upsert_edge(src, a, now);
            i = i + 1;
        }
        let ghost mid = *self;
        self.ensure_node(src);
        let mut i: usize = 0;
        while i < n
            invariant
                n == addrs@.len(),
                i <= n,
                node_keys_unique(self.nodes_seq()),
                self.conns_seq() == mid.conns_seq(),
                forall|x: NodeAddr|
                    #[trigger] self.has_node(x) <==> mid.has_node(x) || x == src || (exists|k: int|
                        0 <= k < i && addrs@[k] == x),
                forall|x: NodeAddr|
                    mid.has_node(x) ==> #[trigger] self.node_of(x) == mid.node_of(x),
                forall|x: NodeAddr|
                    !mid.has_node(x) && #[trigger] self.has_node(x) ==> self.node_of(x)
                        == fresh_node(),
            decreases n - i,
        {
            let a = addrs[i];
            self.ensure_node(a);
            i = i + 1;
        }
        proof {
            assert(mid.nodes_seq() == pre.nodes_seq());
            assert(self.conns_seq() == mid.conns_seq());
            assert forall|x: NodeAddr| #[trigger] addrs@.contains(x) implies exists|k: int|
                0 <= k < n && addrs@[k] == x by {
                let k = choose|k: int| 0 <= k < addrs@.len() && addrs@[k] == x;
                assert(0 <= k < n && addrs@[k] == x);
            }
            assert forall|x: NodeAddr| (exists|k: int| 0 <= k < n && addrs@[k] == x) implies #[trigger] addrs@.contains(
                x,
            ) by {
                let k = choose|k: int| 0 <= k < n && addrs@[k] == x;
                assert(addrs@[k] == x);
            }
            assert forall|x: NodeAddr| #[trigger] self.has_node(x) <==> pre.has_node(x) || x == src
                || addrs@.contains(x) by {
                assert(mid.has_node(x) <==> pre.has_node(x));
            }
            assert forall|x: NodeAddr| pre.has_node(x) implies #[trigger] self.node_of(x)
                == pre.node_of(x) by {
                assert(mid.has_node(x));
                assert(mid.node_of(x) == pre.node_of(x));
            }
            assert forall|x: NodeAddr|
                !pre.has_node(x) && #[trigger] self.has_node(x) implies self.node_of(x)
                == fresh_node() by {
                assert(!mid.has_node(x));
            }
            assert forall|x: NodeAddr, y: NodeAddr|
                #[trigger] self.has_edge(x, y) <==> pre.has_edge(x, y) || (x == src
                    && addrs@.contains(y)) by {
                assert(self.has_edge(x, y) <==> mid.has_edge(x, y));
            }
            assert forall|x: NodeAddr, y: NodeAddr|
                pre.has_edge(x, y) && !(x == src && addrs@.contains(y)) implies #[trigger] self.edge_last_seen(
                x,
                y,
            ) == pre.edge_last_seen(x, y) by {
                assert(mid.edge_last_seen(x, y) == pre.edge_last_seen(x, y));
            }
            assert forall|y: NodeAddr| addrs@.contains(y) implies #[trigger] self.edge_last_seen(
                src,
                y,
            ) == now by {
                let k = choose|k: int| 0 <= k < addrs@.len() && addrs@[k] == y;
                assert(mid.edge_last_seen(src, addrs@[k]) == now);
            }
            assert forall|k: int|
                0 <= k < self.conns_seq().len() implies node_has_key(
                self.nodes_seq(),
                #[trigger] self.conns_seq()[k].a,
            ) && node_has_key(self.nodes_seq(), self.conns_seq()[k].b) by {
                let c = self.conns_seq()[k];
                assert(mid.conns_seq()[k] == c);
                if c.a == src && exists|j: int| 0 <= j < n && addrs@[j] == c.b {
                    assert(self.has_node(src));
                    assert(addrs@.contains(c.b));
                    assert(self.has_node(c.b));
                } else {
                    let j = choose|j: int|
                        0 <= j < pre.conns_seq().len() && pre.conns_seq()[j].a == c.a
                            && pre.conns_seq()[j].b == c.b;
                    assert(node_has_key(pre.nodes_seq(), pre.conns_seq()[j].a));
                    assert(node_has_key(pre.nodes_seq(), pre.conns_seq()[j].b));
                    assert(pre.has_node(c.a));
                    assert(pre.has_node(c.b));
                    assert(mid.has_node(c.a));
                    assert(mid.has_node(c.b));
                    assert(self.has_node(c.a));
                    assert(self.has_node(c.b));
                }
            }
        }
    }

    /// Applies the outcome of a dial to the record for `addr`, if one
    /// exists; an unknown address is left alone. `elapsed_ms` is the time
    /// the dial and handshake took.
    pub fn record_dial_result(
        &mut self,
        addr: NodeAddr,
        now: u64,
        elapsed_ms: u64,
        success: bool,
    )
        requires
            old(self).wf(),
        ensures
            final(self).wf(),
            final(self).conns_seq() == old(self).conns_seq(),
            forall|x: NodeAddr| #[trigger] final(self).has_node(x) <==> old(self).has_node(x),
            forall|x: NodeAddr|
                old(self).has_node(x) && x != addr ==> #[trigger] final(self).node_of(x) == old(
                    self,
                ).node_of(x),
            old(self).has_node(addr) ==> final(self).node_of(addr) == dial_update(
                old(self).node_of(addr),
                now,
                elapsed_ms,
                success,
            ),
    {
        let found = self.find_node(addr);
        match found {
            Some(i) => {
                let ghost pre = self.nodes_seq();
                if success {
                    self.nodes[i].1.last_connected = Some(now);
                    self.nodes[i].1.handshake_time = Some(elapsed_ms);
                    self.nodes[i].1.connection_failures = 0;
                    self.nodes[i].1.state = ConnectionState::Connected;
                } else {
                    let f = self.nodes[i].1.connection_failures;
                    self.nodes[i].1.connection_failures = if f == 255 {
                        255
                    } else {
                        f + 1
                    };
                }
                proof {
                    assert(self.nodes_seq()[i as int] == (
                        addr,
                        dial_update(pre[i as int].1, now, elapsed_ms, success),
                    ));
                    assert(self.nodes_seq() =~= pre.update(
                        i as int,
                        (addr, dial_update(pre[i as int].1, now, elapsed_ms, success)),
                    ));
                    lemma_update_node(
                        pre,
                        self.nodes_seq(),
                        i as int,
                        addr,
                        dial_update(pre[i as int].1, now, elapsed_ms, success),
                    );
                }
            }
            None => {},
        }
    }

    /// Records the metadata from a peer's `Version` message, if the peer is
    /// known; an unknown address is left alone.
    pub fn record_version(
        &mut self,
        addr: NodeAddr,
        version: u32,
        user_agent: String,
        services: u64,
        start_height: i32,
    )
        requires
            old(self).wf(),
        ensures
            final(self).wf(),
            final(self).conns_seq() == old(self).conns_seq(),
            forall|x: NodeAddr| #[trigger] final(self).has_node(x) <==> old(self).has_node(x),
            forall|x: NodeAddr|
                old(self).has_node(x) && x != addr ==> #[trigger] final(self).node_of(x) == old(
                    self,
                ).node_of(x),
            old(self).has_node(addr) ==> final(self).node_of(addr) == (KnownNode {
                protocol_version: Some(version),
                user_agent: Some(user_agent),
                services: Some(services),
                start_height: Some(start_height),
                ..old(self).node_of(addr)
            }),
    {
        let found = self.find_node(addr);
        match found {
            Some(i) => {
                let ghost pre = self.nodes_seq();
                self.nodes[i].1.protocol_version = Some(version);
                self.nodes[i].1.user_agent = Some(user_agent);
                self.nodes[i].1.services = Some(services);
                self.nodes[i].1.start_height = Some(start_height);
                proof {
                    assert(self.nodes_seq() =~= pre.update(
                        i as int,
                        (addr, self.nodes_seq()[i as int].1),
                    ));
                    lemma_update_node(
                        pre,
                        self.nodes_seq(),
                        i as int,
                        addr,
                        self.nodes_seq()[i as int].1,
                    );
                }
            }
            None => {},
        }
    }

    /// Sets the transport-state shadow of `addr`, if the peer is known.
    pub fn set_node_state(&mut self, addr: NodeAddr, state: ConnectionState)
        requires
            old(self).wf(),
        ensures
            final(self).wf(),
            final(self).conns_seq() == old(self).conns_seq(),
            forall|x: NodeAddr| #[trigger] final(self).has_node(x) <==> old(self).has_node(x),
            forall|x: NodeAddr|
                old(self).has_node(x) && x != addr ==> #[trigger] final(self).node_of(x) == old(
                    self,
                ).node_of(x),
            old(self).has_node(addr) ==> final(self).node_of(addr) == (KnownNode {
                state,
                ..old(self).node_of(addr)
            }),
    {
        let found = self.find_node(addr);
        match found {
            Some(i) => {
                let ghost pre = self.nodes_seq();
                self.nodes[i].1.state = state;
                proof {
                    assert(self.nodes_seq() =~= pre.update(
                        i as int,
                        (addr, self.nodes_seq()[i as int].1),
                    ));
                    lemma_update_node(
                        pre,
                        self.nodes_seq(),
                        i as int,
                        addr,
                        self.nodes_seq()[i as int].1,
                    );
                }
            }
            None => {},
        }
    }

    /// Drops every edge whose `last_seen` lies more than `cutoff` seconds
    /// in the past. Records are never dropped.
    pub fn remove_old_connections(&mut self, now: u64, cutoff: u64)
        requires
            old(self).wf(),
        ensures
            final(self).wf(),
            final(self).nodes_seq() == old(self).nodes_seq(),
            forall|x: NodeAddr, y: NodeAddr|
                #[trigger] final(self).has_edge(x, y) <==> old(self).has_edge(x, y) && !edge_stale(
                    old(self).edge_last_seen(x, y),
                    now,
                    cutoff,
                ),
            forall|x: NodeAddr, y: NodeAddr|
                final(self).has_edge(x, y) ==> #[trigger] final(self).edge_last_seen(x, y) == old(
                    self,
                ).edge_last_seen(x, y),
    {
        let ghost pre = *old(self);
        let n = self.connections.len();
        let mut kept: Vec<KnownConnection> = Vec::new();
        let mut i: usize = 0;
        while i < n
            invariant
                n == pre.conns_seq().len(),
                i <= n,
                pre.wf(),
                *self == pre,
                forall|k: int|
                    0 <= k < kept@.len() ==> exists|j: int|
                        0 <= j < i && pre.conns_seq()[j] == #[trigger] kept@[k],
                forall|j: int|
                    0 <= j < i && !edge_stale(pre.conns_seq()[j].last_seen, now, cutoff)
                        ==> kept@.contains(#[trigger] pre.conns_seq()[j]),
                forall|k: int|
                    0 <= k < kept@.len() ==> !edge_stale(#[trigger] kept@[k].last_seen, now, cutoff),
                edge_pairs_unique(kept@),
            decreases n - i,
        {
            let c = self.connections[i];
            let age = if now >= c.last_seen {
                now - c.last_seen
            } else {
                0
            };
            let ghost kept_pre = kept@;
            if age <= cutoff {
                kept.push(c);
                proof {
                    assert(kept@[kept@.len() - 1] == c);
                    assert forall|k1: int, k2: int|
                        0 <= k1 < kept@.len() && 0 <= k2 < kept@.len() && kept@[k1].a == kept@[k2].a
                            && kept@[k1].b == kept@[k2].b implies k1 == k2 by {
                        if k1 < kept_pre.len() && k2 < kept_pre.len() {
                        } else if k1 < kept_pre.len() || k2 < kept_pre.len() {
                            let kk = if k1 < kept_pre.len() {
                                k1
                            } else {
                                k2
                            };
                            assert(kept@[kk] == kept_pre[kk]);
                            let j = choose|j: int|
                                0 <= j < i && pre.conns_seq()[j] == kept_pre[kk];
                            assert(pre.conns_seq()[j].a == c.a && pre.conns_seq()[j].b == c.b);
                            assert(pre.conns_seq()[i as int] == c);
                            assert(j == i as int);
                        }
                    }
                    assert forall|j: int|
                        0 <= j < i + 1 && !edge_stale(pre.conns_seq()[j].last_seen, now, cutoff)
                            implies kept@.contains(#[trigger] pre.conns_seq()[j]) by {
                        if j < i {
                            let k = choose|k: int|
                                0 <= k < kept_pre.len() && kept_pre[k] == pre.conns_seq()[j];
                            assert(kept@[k] == pre.conns_seq()[j]);
                        } else {
                            assert(kept@[kept@.len() - 1] == pre.conns_seq()[j]);
                        }
                    }
                }
            } else {
                proof {
                    assert(edge_stale(pre.conns_seq()[i as int].last_seen, now, cutoff));
                }
            }
            i = i + 1;
        }
        self.connections = kept;
        proof {
            assert(self.conns_seq() == kept@);
            assert(self.nodes_seq() == pre.nodes_seq());
            assert forall|x: NodeAddr, y: NodeAddr| #[trigger] self.has_edge(x, y) implies
                pre.has_edge(x, y) && !edge_stale(pre.edge_last_seen(x, y), now, cutoff) by {
                let k = choose|k: int|
                    0 <= k < kept@.len() && kept@[k].a == x && kept@[k].b == y;
                let j = choose|j: int| 0 <= j < n && pre.conns_seq()[j] == kept@[k];
                assert(pre.conns_seq()[j].a == x && pre.conns_seq()[j].b == y);
                let m = edge_index_of(pre.conns_seq(), x, y);
                assert(0 <= m < pre.conns_seq().len() && pre.conns_seq()[m].a == x
                    && pre.conns_seq()[m].b == y);
                assert(m == j);
                assert(pre.edge_last_seen(x, y) == kept@[k].last_seen);
            }
            assert forall|x: NodeAddr, y: NodeAddr|
                pre.has_edge(x, y) && !edge_stale(pre.edge_last_seen(x, y), now, cutoff) implies #[trigger] self.has_edge(
                x,
                y,
            ) by {
                let m = edge_index_of(pre.conns_seq(), x, y);
                assert(0 <= m < pre.conns_seq().len() && pre.conns_seq()[m].a == x
                    && pre.conns_seq()[m].b == y);
                assert(kept@.contains(pre.conns_seq()[m]));
                let k = choose|k: int| 0 <= k < kept@.len() && kept@[k] == pre.conns_seq()[m];
                assert(kept@[k].a == x && kept@[k].b == y);
            }
            assert forall|x: NodeAddr, y: NodeAddr| self.has_edge(x, y) implies #[trigger] self.edge_last_seen(
                x,
                y,
            ) == pre.edge_last_seen(x, y) by {
                let k = edge_index_of(self.conns_seq(), x, y);
                assert(0 <= k < kept@.len() && kept@[k].a == x && kept@[k].b == y);
                let j = choose|j: int| 0 <= j < n && pre.conns_seq()[j] == kept@[k];
                let m = edge_index_of(pre.conns_seq(), x, y);
                assert(pre.conns_seq()[j].a == x && pre.conns_seq()[j].b == y);
                assert(m == j);
            }
            assert forall|k: int|
                0 <= k < self.conns_seq().len() implies node_has_key(
                self.nodes_seq(),
                #[trigger] self.conns_seq()[k].a,
            ) && node_has_key(self.nodes_seq(), self.conns_seq()[k].b) by {
                let j = choose|j: int| 0 <= j < n && pre.conns_seq()[j] == kept@[k];
                assert(node_has_key(pre.nodes_seq(), pre.conns_seq()[j].a));
                assert(node_has_key(pre.nodes_seq(), pre.conns_seq()[j].b));
            }
        }
    }
    ///
    /// Registers `addr` as a known address, with a fresh record if it was
    /// unknown; an existing record is left as it was. Seeds enter the
    /// store through here.
    pub fn register_node(&mut self, addr: NodeAddr)
        requires
            old(self).wf(),
        ensures
            final(self).wf(),
            final(self).conns_seq() == old(self).conns_seq(),
            forall|x: NodeAddr|
                #[trigger] final(self).has_node(x) <==> old(self).has_node(x) || x == addr,
            forall|x: NodeAddr|
                old(self).has_node(x) ==> #[trigger] final(self).node_of(x) == old(self).node_of(
                    x,
                ),
            !old(self).has_node(addr) ==> final(self).node_of(addr) == fresh_node(),
    {
        self.ensure_node(addr);
        proof {
            assert forall|k: int|
                0 <= k < self.conns_seq().len() implies node_has_key(
                self.nodes_seq(),
                #[trigger] self.conns_seq()[k].a,
            ) && node_has_key(self.nodes_seq(), self.conns_seq()[k].b) by {
                assert(node_has_key(old(self).nodes_seq(), old(self).conns_seq()[k].a));
                assert(node_has_key(old(self).nodes_seq(), old(self).conns_seq()[k].b));
                assert(old(self).has_node(self.conns_seq()[k].a));
                assert(old(self).has_node(self.conns_seq()[k].b));
                assert(self.has_node(self.conns_seq()[k].a));
                assert(self.has_node(self.conns_seq()[k].b));
            }
        }
    }

    /// Whether `addr` is a known record.
    pub fn contains_node(&self, addr: NodeAddr) -> (r: bool)
        ensures
            r == self.has_node(addr),
    {
        match self.find_node(addr) {
            Some(_) => true,
            None => false,
        }
    }

    /// Whether the directed edge `(a, b)` is known.
    pub fn contains_edge(&self, a: NodeAddr, b: NodeAddr) -> (r: bool)
        ensures
            r == self.has_edge(a, b),
    {
        match self.find_edge(a, b) {
            Some(_) => true,
            None => false,
        }
    }

    /// The records, in insertion order.
    pub fn nodes(&self) -> (r: &Vec<(NodeAddr, KnownNode)>)
        ensures
            r@ == self.nodes_seq(),
    {
        &self.nodes
    }

    /// The live edges.
    pub fn connections(&self) -> (r: &Vec<KnownConnection>)
        ensures
            r@ == self.conns_seq(),
    {
        &self.connections
    }

    pub fn num_nodes(&self) -> (r: usize)
        ensures
            r == self.nodes_seq().len(),
    {
        self.nodes.len()
    }

    pub fn num_connections(&self) -> (r: usize)
        ensures
            r == self.conns_seq().len(),
    {
        self.connections.len()
    }
}

/// An edge observed at `last_seen` is stale at `now` under `cutoff` when
/// its age exceeds the cutoff (a timestamp in the future counts as age 0).
pub open spec fn edge_stale(last_seen: u64, now: u64, cutoff: u64) -> bool {
    now >= last_seen && now - last_seen > cutoff
}

// The testable laws of the store.

/// Every edge's endpoints are known records — the store's standing
/// invariant, for any well-formed store.
pub proof fn lemma_edge_endpoints_known(n: KnownNetwork, a: NodeAddr, b: NodeAddr)
    requires
        n.wf(),
        n.has_edge(a, b),
    ensures
        n.has_node(a),
        n.has_node(b),
{
    let i = edge_index_of(n.conns_seq(), a, b);
    assert(0 <= i < n.conns_seq().len() && n.conns_seq()[i].a == a && n.conns_seq()[i].b == b);
}

/// With a monotone clock, a record's `last_connected` never decreases
/// under a dial outcome.
pub proof fn lemma_last_connected_monotone(
    rec: KnownNode,
    now: u64,
    elapsed_ms: u64,
    success: bool,
    t: u64,
)
    requires
        rec.last_connected == Some(t),
        now >= t,
    ensures
        dial_update(rec, now, elapsed_ms, success).last_connected matches Some(t2) && t2 >= t,
{
}

/// A failed dial strictly increases the failure count (until it saturates).
pub proof fn lemma_failures_strictly_increase(rec: KnownNode, now: u64, elapsed_ms: u64)
    requires
        rec.connection_failures < 255,
    ensures
        dial_update(rec, now, elapsed_ms, false).connection_failures == rec.connection_failures
            + 1,
{
}

/// A successful dial leaves the failure count at exactly zero.
pub proof fn lemma_failures_reset(rec: KnownNode, now: u64, elapsed_ms: u64)
    ensures
        dial_update(rec, now, elapsed_ms, true).connection_failures == 0,
{
}

/// Ingesting the same ADDR observation twice leaves the record map
/// identical to ingesting it once; only the edges' `last_seen` advances.
pub proof fn lemma_add_addrs_idempotent(
    n0: KnownNetwork,
    n1: KnownNetwork,
    n2: KnownNetwork,
    src: NodeAddr,
    addrs: Seq<NodeAddr>,
    t1: u64,
    t2: u64,
)
    requires
        add_addrs_rel(n0, n1, src, addrs, t1),
        add_addrs_rel(n1, n2, src, addrs, t2),
    ensures
        n2.nodes_map() =~= n1.nodes_map(),
        forall|x: NodeAddr, y: NodeAddr| #[trigger] n2.has_edge(x, y) <==> n1.has_edge(x, y),
        forall|y: NodeAddr| addrs.contains(y) ==> #[trigger] n2.edge_last_seen(src, y) == t2,
{
    assert forall|x: NodeAddr| #[trigger] n2.has_node(x) <==> n1.has_node(x) by {}
    assert forall|x: NodeAddr| n1.has_node(x) implies #[trigger] n2.node_of(x) == n1.node_of(
        x,
    ) by {}
}

proof fn lemma_update_node(
    pre: Seq<(NodeAddr, KnownNode)>,
    post: Seq<(NodeAddr, KnownNode)>,
    i: int,
    addr: NodeAddr,
    rec: KnownNode,
)
    requires
        node_keys_unique(pre),
        0 <= i < pre.len(),
        pre[i].0 == addr,
        post == pre.update(i, (addr, rec)),
    ensures
        node_keys_unique(post),
        forall|x: NodeAddr| #[trigger] node_has_key(post, x) <==> node_has_key(pre, x),
        forall|x: NodeAddr|
            node_has_key(pre, x) && x != addr ==> #[trigger] node_value(post, x) == node_value(
                pre,
                x,
            ),
        node_value(post, addr) == rec,
{
    assert(forall|k: int| 0 <= k < post.len() && k != i ==> post[k] == pre[k]);
    assert forall|x: NodeAddr| #[trigger] node_has_key(post, x) <==> node_has_key(pre, x) by {
        if node_has_key(post, x) {
            let k = choose|k: int| 0 <= k < post.len() && post[k].0 == x;
            assert(pre[k].0 == x);
        }
        if node_has_key(pre, x) {
            let k = choose|k: int| 0 <= k < pre.len() && pre[k].0 == x;
            assert(post[k].0 == x);
        }
    }
    assert forall|x: NodeAddr| node_has_key(pre, x) && x != addr implies #[trigger] node_value(
        post,
        x,
    ) == node_value(pre, x) by {
        let a = node_index_of(pre, x);
        assert(0 <= a < pre.len() && pre[a].0 == x);
        assert(a != i);
        assert(post[a].0 == x);
        let b = node_index_of(post, x);
        assert(0 <= b < post.len() && post[b].0 == x);
        assert(b != i);
        assert(pre[b].0 == x);
        assert(a == b);
    }
    assert(post[i].0 == addr);
    let b = node_index_of(post, addr);
    assert(0 <= b < post.len() && post[b].0 == addr);
    if b != i {
        assert(pre[b].0 == addr);
    }
}

// Small sequence lemmas used by the store's methods.

proof fn lemma_unchanged_nodes(pre: Seq<(NodeAddr, KnownNode)>, post: Seq<(NodeAddr, KnownNode)>)
    requires
        pre == post,
    ensures
        forall|x: NodeAddr| #[trigger] node_has_key(post, x) <==> node_has_key(pre, x),
        forall|x: NodeAddr|
            node_has_key(pre, x) ==> #[trigger] node_value(post, x) == node_value(pre, x),
{
}

proof fn lemma_push_node(
    pre: Seq<(NodeAddr, KnownNode)>,
    post: Seq<(NodeAddr, KnownNode)>,
    addr: NodeAddr,
    rec: KnownNode,
)
    requires
        node_keys_unique(pre),
        !node_has_key(pre, addr),
        post == pre.push((addr, rec)),
    ensures
        node_keys_unique(post),
        forall|x: NodeAddr| #[trigger] node_has_key(post, x) <==> node_has_key(pre, x) || x == addr,
        forall|x: NodeAddr|
            node_has_key(pre, x) ==> #[trigger] node_value(post, x) == node_value(pre, x),
        node_value(post, addr) == rec,
{
    assert forall|x: NodeAddr| #[trigger] node_has_key(post, x) implies node_has_key(pre, x) || x
        == addr by {
        let i = choose|i: int| 0 <= i < post.len() && post[i].0 == x;
        if i < pre.len() {
            assert(pre[i].0 == x);
        }
    }
    assert forall|x: NodeAddr| node_has_key(pre, x) || x == addr implies #[trigger] node_has_key(
        post,
        x,
    ) by {
        if x == addr {
            assert(post[pre.len() as int].0 == addr);
        } else {
            let i = choose|i: int| 0 <= i < pre.len() && pre[i].0 == x;
            assert(post[i].0 == x);
        }
    }
    assert forall|x: NodeAddr| node_has_key(pre, x) implies #[trigger] node_value(post, x)
        == node_value(pre, x) by {
        let i = node_index_of(pre, x);
        assert(0 <= i < pre.len() && pre[i].0 == x);
        assert(post[i].0 == x);
        let j = node_index_of(post, x);
        assert(0 <= j < post.len() && post[j].0 == x);
        if j < pre.len() {
            assert(pre[j].0 == x);
            assert(j == i);
        } else {
            assert(post[j].0 == addr);
            assert(node_has_key(pre, addr));
        }
    }
    assert(post[pre.len() as int].0 == addr);
    let j = node_index_of(post, addr);
    assert(0 <= j < post.len() && post[j].0 == addr);
    if j < pre.len() {
        assert(pre[j].0 == addr);
        assert(node_has_key(pre, addr));
    }
}

proof fn lemma_update_edge(
    pre: Seq<KnownConnection>,
    post: Seq<KnownConnection>,
    i: int,
    a: NodeAddr,
    b: NodeAddr,
    now: u64,
)
    requires
        edge_pairs_unique(pre),
        0 <= i < pre.len(),
        pre[i].a == a,
        pre[i].b == b,
        post == pre.update(i, KnownConnection { a, b, last_seen: now }),
    ensures
        edge_pairs_unique(post),
        forall|x: NodeAddr, y: NodeAddr|
            #[trigger] edge_has_pair(post, x, y) <==> edge_has_pair(pre, x, y) || (x == a && y
                == b),
        forall|x: NodeAddr, y: NodeAddr|
            edge_has_pair(pre, x, y) && !(x == a && y == b) ==> #[trigger] edge_seen(post, x, y)
                == edge_seen(pre, x, y),
        edge_seen(post, a, b) == now,
        forall|k: int|
            0 <= k < post.len() ==> (#[trigger] post[k].a == a && post[k].b == b) || (exists|j: int|
                0 <= j < pre.len() && pre[j].a == post[k].a && pre[j].b == post[k].b),
{
    assert(forall|k: int| 0 <= k < post.len() && k != i ==> post[k] == pre[k]);
    assert forall|x: NodeAddr, y: NodeAddr|
        edge_has_pair(pre, x, y) && !(x == a && y == b) implies #[trigger] edge_seen(post, x, y)
        == edge_seen(pre, x, y) by {
        let j = edge_index_of(pre, x, y);
        assert(0 <= j < pre.len() && pre[j].a == x && pre[j].b == y);
        assert(j != i);
        assert(post[j].a == x && post[j].b == y);
        let k = edge_index_of(post, x, y);
        assert(0 <= k < post.len() && post[k].a == x && post[k].b == y);
        assert(k != i);
        assert(pre[k].a == x && pre[k].b == y);
        assert(k == j);
    }
    assert(post[i].a == a && post[i].b == b);
    let k = edge_index_of(post, a, b);
    assert(0 <= k < post.len() && post[k].a == a && post[k].b == b);
    assert(k == i);
}

proof fn lemma_push_edge(
    pre: Seq<KnownConnection>,
    post: Seq<KnownConnection>,
    a: NodeAddr,
    b: NodeAddr,
    now: u64,
)
    requires
        edge_pairs_unique(pre),
        !edge_has_pair(pre, a, b),
        post == pre.push(KnownConnection { a, b, last_seen: now }),
    ensures
        edge_pairs_unique(post),
        forall|x: NodeAddr, y: NodeAddr|
            #[trigger] edge_has_pair(post, x, y) <==> edge_has_pair(pre, x, y) || (x == a && y
                == b),
        forall|x: NodeAddr, y: NodeAddr|
            edge_has_pair(pre, x, y) && !(x == a && y == b) ==> #[trigger] edge_seen(post, x, y)
                == edge_seen(pre, x, y),
        edge_seen(post, a, b) == now,
        forall|k: int|
            0 <= k < post.len() ==> (#[trigger] post[k].a == a && post[k].b == b) || (exists|j: int|
                0 <= j < pre.len() && pre[j].a == post[k].a && pre[j].b == post[k].b),
{
    assert forall|x: NodeAddr, y: NodeAddr| #[trigger] edge_has_pair(post, x, y) implies
        edge_has_pair(pre, x, y) || (x == a && y == b) by {
        let i = choose|i: int| 0 <= i < post.len() && post[i].a == x && post[i].b == y;
        if i < pre.len() {
            assert(pre[i].a == x && pre[i].b == y);
        }
    }
    assert forall|x: NodeAddr, y: NodeAddr|
        edge_has_pair(pre, x, y) || (x == a && y == b) implies #[trigger] edge_has_pair(
        post,
        x,
        y,
    ) by {
        if x == a && y == b {
            assert(post[pre.len() as int].a == a && post[pre.len() as int].b == b);
        } else {
            let i = choose|i: int| 0 <= i < pre.len() && pre[i].a == x && pre[i].b == y;
            assert(post[i].a == x && post[i].b == y);
        }
    }
    assert forall|x: NodeAddr, y: NodeAddr|
        edge_has_pair(pre, x, y) && !(x == a && y == b) implies #[trigger] edge_seen(post, x, y)
        == edge_seen(pre, x, y) by {
        let j = edge_index_of(pre, x, y);
        assert(0 <= j < pre.len() && pre[j].a == x && pre[j].b == y);
        assert(post[j].a == x && post[j].b == y);
        let k = edge_index_of(post, x, y);
        assert(0 <= k < post.len() && post[k].a == x && post[k].b == y);
        if k < pre.len() {
            assert(pre[k].a == x && pre[k].b == y);
            assert(k == j);
        } else {
            assert(post[k].a == a && post[k].b == b);
        }
    }
    assert(post[pre.len() as int].a == a && post[pre.len() as int].b == b);
    let k = edge_index_of(post, a, b);
    assert(0 <= k < post.len() && post[k].a == a && post[k].b == b);
    if k < pre.len() {
        assert(edge_has_pair(pre, a, b));
    }
    assert forall|i: int, j: int|
        0 <= i < post.len() && 0 <= j < post.len() && post[i].a == post[j].a && post[i].b
            == post[j].b implies i == j by {
        if i < pre.len() && j < pre.len() {
        } else if i < pre.len() {
            assert(pre[i].a == a && pre[i].b == b);
            assert(edge_has_pair(pre, a, b));
        } else if j < pre.len() {
            assert(pre[j].a == a && pre[j].b == b);
            assert(edge_has_pair(pre, a, b));
        }
    }
}

} // verus!
