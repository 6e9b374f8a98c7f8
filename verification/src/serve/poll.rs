//! What the router does with what a daemon replies, and with what it announces.

use vstd::prelude::*;
use vstd::string::*;

use crate::common::dict::{lemma_ordered, ordered};
use crate::common::json::{meaning, Json, JsonV};
use crate::common::text::{listed, opt_text, same, texts};
use crate::daemon::sweep::{elapsed, since};
use crate::serve::net::Net;
use crate::serve::shared::{unheard, DaemonV, DaemonView, NodeWatch, Shared, SharedV, WatchV};
use crate::serve::watch::{
    alternates_in_order, asked, at_port, at_ports, claim_holds, claim_node, claimed, drop_watch,
    dropped, ensure_watched, host_port, move_watch, peer_addresses, peer_best, peer_candidates,
    published, published_alive, try_alternates, wanted, watch_moved, with_ports,
};

verus! {

broadcast use meaning;

// ---------------------------------------------------------------------------
// Polls
// ---------------------------------------------------------------------------
/// A watch to be started: the address, and the others to fall back to before the
/// first answer, best first.
#[derive(Debug)]
pub struct WatchAsk {
    pub addr: String,
    pub others: Vec<String>,
}

/// A `WatchAsk` as a mathematical value.
pub struct AskV {
    pub addr: Seq<char>,
    pub others: Seq<Seq<char>>,
}

impl View for WatchAsk {
    type V = AskV;

    open spec fn view(&self) -> AskV {
        AskV { addr: self.addr@, others: texts(self.others@) }
    }
}

/// Watches as mathematical values.
pub open spec fn ask_views(v: Seq<WatchAsk>) -> Seq<AskV> {
    Seq::new(v.len(), |i: int| v[i]@)
}

/// The set of a node's alternates with some more addresses of its own.
pub open spec fn more_alternates(w: WatchV, addrs: Seq<Seq<char>>) -> Set<Seq<char>>
    decreases addrs.len(),
{
    if addrs.len() == 0 {
        w.alternates
    } else {
        let had = more_alternates(w, addrs.drop_last());
        if addrs.last() != w.addr {
            had.insert(addrs.last())
        } else {
            had
        }
    }
}

/// The port a live peer is polled on.
pub open spec fn peer_port(p: JsonV) -> Option<u64> {
    match p.field("http_port"@).uint() {
        Some(n) if n > 0 && p.field("alive"@).is_true() => Some(n),
        _ => None,
    }
}

/// The router, and the watches it has to start, after one peer was read. A node
/// already watched learns its addresses; an unwatched one gets a watch.
pub open spec fn peer_read(
    s: SharedV,
    asks: Seq<AskV>,
    id: Seq<char>,
    p: JsonV,
    local: Seq<Net>,
) -> (SharedV, Seq<AskV>) {
    match peer_port(p) {
        Some(port) => {
            let all = with_ports(peer_candidates(p, local), port);
            if s.nodes.contains_key(id) {
                (
                    SharedV {
                        nodes: s.nodes.insert(
                            id,
                            WatchV {
                                alternates: more_alternates(s.nodes[id], all),
                                ..s.nodes[id]
                            },
                        ),
                        ..s
                    },
                    asks,
                )
            } else {
                match peer_best(peer_candidates(p, local)) {
                    Some(ip) => {
                        let addr = host_port(ip, port);
                        (
                            asked(s, addr),
                            if wanted(s, addr) {
                                asks.push(AskV { addr, others: all })
                            } else {
                                asks
                            },
                        )
                    },
                    None => (s, asks),
                }
            }
        },
        None => (s, asks),
    }
}

/// The router, and the watches it has to start, after some peers were read.
pub open spec fn peers_read(
    s: SharedV,
    peers: Map<Seq<char>, JsonV>,
    keys: Seq<Seq<char>>,
    local: Seq<Net>,
) -> (SharedV, Seq<AskV>)
    decreases keys.len(),
{
    if keys.len() == 0 {
        (s, Seq::empty())
    } else {
        let had = peers_read(s, peers, keys.drop_last(), local);
        peer_read(had.0, had.1, keys.last(), peers[keys.last()], local)
    }
}

/// The router, and the watches it has to start, after a snapshot was read.
pub open spec fn snapshot_read(
    s: SharedV,
    addr: Seq<char>,
    snap: JsonV,
    now: u64,
    local: Seq<Net>,
) -> (SharedV, Seq<AskV>) {
    let peers = snap.field("peers"@).fields();
    let (t, asks) = if s.cfg.discover_peers {
        peers_read(s, peers, ordered(peers.dom()), local)
    } else {
        (s, Seq::empty())
    };
    (
        SharedV {
            daemons: t.daemons.insert(
                addr,
                DaemonV {
                    status: Some(snap),
                    seen: Some(now),
                    error: None,
                    node_id: snap.field("node_id"@).text(),
                    seed: t.daemons.contains_key(addr) && t.daemons[addr].seed,
                },
            ),
            ..t
        },
        asks,
    )
}

fn learn(w: &mut NodeWatch, addrs: &Vec<String>)
    ensures
        final(w).deep_view() == (WatchV {
            alternates: more_alternates(old(w).deep_view(), texts(addrs@)),
            ..old(w).deep_view()
        }),
{
    let ghost w0 = w.deep_view();
    let ghost all = texts(addrs@);
    let mut i: usize = 0;
    proof {
        assert(all.take(0) =~= Seq::<Seq<char>>::empty());
    }
    while i < addrs.len()
        invariant
            i <= addrs@.len(),
            all == texts(addrs@),
            w.addr@ == w0.addr,
            w.alternates@.dom() == more_alternates(w0, all.take(i as int)),
        decreases addrs@.len() - i,
    {
        proof {
            assert(all.take(i + 1).drop_last() =~= all.take(i as int));
            assert(all.take(i + 1).last() == addrs@[i as int]@);
        }
        if !same(addrs[i].as_str(), w.addr.as_str()) {
            let ghost had = w.alternates@.dom();
            w.alternates.insert(addrs[i].clone(), ());
            proof {
                assert(w.alternates@.dom() =~= had.insert(addrs@[i as int]@));
            }
        }
        i += 1;
    }
    proof {
        assert(all.take(all.len() as int) =~= all);
    }
}

fn read_peer(sh: &mut Shared, asks: &mut Vec<WatchAsk>, id: &str, p: &Json, local: &Vec<Net>)
    ensures
        (final(sh)@, ask_views(final(asks)@)) == peer_read(
            old(sh)@,
            ask_views(old(asks)@),
            id@,
            p.v(),
            local@,
        ),
{
    let ghost s0 = sh@;
    let port: u64 = match p.uint_at("http_port") {
        Some(n) => n,
        None => return,
    };
    if port == 0 || !p.true_at("alive") {
        return;
    }
    let (best, all) = peer_addresses(p, local);
    let addrs = at_ports(&all, port);
    match sh.nodes.get_mut(id) {
        Some(w) => {
            learn(w, &addrs);
            let ghost w1 = w.deep_view();
            proof {
                assert(sh@.nodes =~= s0.nodes.insert(id@, w1));
            }
        },
        None => {
            if let Some(ip) = best {
                let addr = at_port(ip.as_str(), port);
                if ensure_watched(sh, addr.as_str()) {
                    let ghost was = asks@;
                    let a = WatchAsk { addr, others: addrs };
                    let ghost av = a@;
                    asks.push(a);
                    proof {
                        assert(ask_views(asks@) =~= ask_views(was).push(av));
                    }
                }
            }
        },
    }
}

/// What a poll found: the daemon's node, and the watches to be started.
#[derive(Debug)]
pub struct Polled {
    pub node_id: Option<String>,
    pub asks: Vec<WatchAsk>,
}

/// Takes in one snapshot a daemon replied with. Membership follows the mesh:
/// every peer's row holds its address, so one seed reveals the rest.
pub fn poll_replied(
    sh: &mut Shared,
    addr: &str,
    snap: Json,
    now: u64,
    local: &Vec<Net>,
) -> (r: Polled)
    ensures
        (final(sh)@, ask_views(r.asks@)) == snapshot_read(old(sh)@, addr@, snap.v(), now, local@),
        opt_text(r.node_id) == snap.v().field("node_id"@).text(),
{
    let ghost s0 = sh@;
    let ghost peers = snap.v().field("peers"@).fields();
    let node_id = match snap.text_at("node_id") {
        Some(s) => Some(s.to_string()),
        None => None,
    };
    let id2 = match &node_id {
        Some(s) => Some(s.clone()),
        None => None,
    };
    let mut asks: Vec<WatchAsk> = Vec::new();
    proof {
        assert(ask_views(asks@) =~= Seq::<AskV>::empty());
    }
    if sh.cfg.discover_peers {
        match snap.fields_at("peers") {
            Some(d) => {
                let n: usize = d.len();
                let ghost order = d.order();
                let mut i: usize = 0;
                proof {
                    assert(peers.dom() =~= d@.dom());
                    assert(order.take(0) =~= Seq::<Seq<char>>::empty());
                }
                while i < n
                    invariant
                        i <= n,
                        n == order.len(),
                        order == d.order(),
                        d.deep_view() == peers,
                        (sh@, ask_views(asks@)) == peers_read(
                            s0,
                            peers,
                            order.take(i as int),
                            local@,
                        ),
                    decreases n - i,
                {
                    let p = d.val_at(i);
                    proof {
                        assert(order.take(i + 1).drop_last() =~= order.take(i as int));
                        assert(order.take(i + 1).last() == order[i as int]);
                        assert(peers[order[i as int]] == p.v());
                    }
                    read_peer(sh, &mut asks, d.key_at(i).as_str(), p, local);
                    i += 1;
                }
                proof {
                    assert(order.take(order.len() as int) =~= order);
                }
            },
            None => {
                proof {
                    assert(peers.dom() =~= Set::empty());
                    lemma_ordered(Seq::<Seq<char>>::empty(), peers.dom());
                }
            },
        }
    }
    let ghost s1 = sh@;
    let seed = match sh.daemons.get(addr) {
        Some(v) => {
            proof {
                assert(s1.daemons[addr@] == v.deep_view());
            }
            v.seed
        },
        None => false,
    };
    let view = DaemonView { status: Some(snap), seen: Some(now), error: None, node_id: id2, seed };
    let ghost vv = view.deep_view();
    sh.daemons.insert(addr.to_string(), view);
    proof {
        assert(sh@.daemons =~= s1.daemons.insert(addr@, vv));
    }
    Polled { node_id, asks }
}

/// Takes in that a daemon did not reply. Only a watched address keeps a row.
pub fn poll_failed(sh: &mut Shared, addr: &str, error: &str)
    ensures
        final(sh)@ == (if old(sh)@.daemons.contains_key(addr@) {
            SharedV {
                daemons: old(sh)@.daemons.insert(
                    addr@,
                    DaemonV { error: Some(error@), ..old(sh)@.daemons[addr@] },
                ),
                ..old(sh)@
            }
        } else {
            old(sh)@
        }),
{
    let ghost s0 = sh@;
    if let Some(v) = sh.daemons.get_mut(addr) {
        v.error = Some(error.to_string());
        let ghost v1 = v.deep_view();
        proof {
            assert(sh@.daemons =~= s0.daemons.insert(addr@, v1));
        }
    }
}

// ---------------------------------------------------------------------------
// One watch
// ---------------------------------------------------------------------------
/// One daemon's watch as it runs.
#[derive(Debug)]
pub struct Watcher {
    pub addr: String,
    pub seed: bool,
    /// The node, once it has replied.
    pub node: Option<String>,
    pub failing_since: Option<u64>,
    /// Addresses to try before the node has replied on any.
    pub untried: Vec<String>,
}

/// A `Watcher` as a mathematical value.
#[verifier::ext_equal]
pub struct WatcherV {
    pub addr: Seq<char>,
    pub seed: bool,
    pub node: Option<Seq<char>>,
    pub failing_since: Option<u64>,
    pub untried: Seq<Seq<char>>,
}

impl View for Watcher {
    type V = WatcherV;

    open spec fn view(&self) -> WatcherV {
        WatcherV {
            addr: self.addr@,
            seed: self.seed,
            node: opt_text(self.node),
            failing_since: self.failing_since,
            untried: texts(self.untried@),
        }
    }
}

/// Those of some addresses that are not the one polled.
pub open spec fn not_this(others: Seq<Seq<char>>, addr: Seq<char>) -> Seq<Seq<char>>
    decreases others.len(),
{
    if others.len() == 0 {
        Seq::empty()
    } else {
        let had = not_this(others.drop_last(), addr);
        if others.last() != addr {
            had.push(others.last())
        } else {
            had
        }
    }
}

/// The daemons with a row for an address.
pub open spec fn with_row(s: SharedV, addr: Seq<char>, seed: bool) -> SharedV {
    if s.daemons.contains_key(addr) {
        s
    } else {
        SharedV { daemons: s.daemons.insert(addr, unheard(seed)), ..s }
    }
}

fn ensure_row(sh: &mut Shared, addr: &str, seed: bool)
    ensures
        final(sh)@ == with_row(old(sh)@, addr@, seed),
{
    let ghost s0 = sh@;
    if !sh.daemons.contains(addr) {
        let view = DaemonView::empty(seed);
        sh.daemons.insert(addr.to_string(), view);
        proof {
            assert(sh@.daemons =~= s0.daemons.insert(addr@, unheard(seed)));
        }
    }
}

/// Starts a watch.
pub fn watch_start(sh: &mut Shared, addr: &str, others: &Vec<String>) -> (r: Watcher)
    ensures
        r@ == (WatcherV {
            addr: addr@,
            seed: old(sh)@.cfg.daemons.contains(addr@),
            node: None,
            failing_since: None,
            untried: not_this(texts(others@), addr@),
        }),
        final(sh)@ == with_row(old(sh)@, addr@, old(sh)@.cfg.daemons.contains(addr@)),
{
    let seed = listed(&sh.cfg.daemons, addr);
    let ghost all = texts(others@);
    let mut untried: Vec<String> = Vec::new();
    let mut i: usize = 0;
    proof {
        assert(texts(untried@) =~= Seq::<Seq<char>>::empty());
    }
    while i < others.len()
        invariant
            i <= others@.len(),
            all == texts(others@),
            texts(untried@) == not_this(all.take(i as int), addr@),
        decreases others@.len() - i,
    {
        proof {
            assert(all.take(i + 1).drop_last() =~= all.take(i as int));
            assert(all.take(i + 1).last() == others@[i as int]@);
        }
        if !same(others[i].as_str(), addr) {
            let ghost was = untried@;
            untried.push(others[i].clone());
            proof {
                assert(texts(untried@) =~= texts(was).push(others@[i as int]@));
            }
        }
        i += 1;
    }
    proof {
        assert(all.take(all.len() as int) =~= all);
    }
    ensure_row(sh, addr, seed);
    Watcher { addr: addr.to_string(), seed, node: None, failing_since: None, untried }
}

/// Some addresses added to a set.
pub open spec fn added(had: Set<Seq<char>>, v: Seq<Seq<char>>) -> Set<Seq<char>>
    decreases v.len(),
{
    if v.len() == 0 {
        had
    } else {
        added(had, v.drop_last()).insert(v.last())
    }
}

/// The router and the watch after the daemon replied as node `id`.
pub open spec fn replied(s: SharedV, w: WatcherV, id: Seq<char>, now: u64) -> (SharedV, WatcherV) {
    let calm = WatcherV { failing_since: None, ..w };
    if w.node == Some(id) {
        (s, calm)
    } else if !claim_holds(s, id, w.addr, now) {
        (dropped(claimed(s, id, w.addr, now), w.addr), calm)
    } else {
        let t = claimed(s, id, w.addr, now);
        (
            SharedV {
                nodes: t.nodes.insert(
                    id,
                    WatchV { alternates: added(t.nodes[id].alternates, w.untried), ..t.nodes[id] },
                ),
                ..t
            },
            WatcherV { node: Some(id), untried: Seq::empty(), ..calm },
        )
    }
}

/// Takes in that the daemon replied as node `id`. False when another fresh watch
/// holds the node: this address became that one's alternate and this watch
/// ends.
pub fn watch_replied(sh: &mut Shared, w: &mut Watcher, id: &str, now: u64) -> (r: bool)
    ensures
        (final(sh)@, final(w)@) == replied(old(sh)@, old(w)@, id@, now),
        r == (old(w)@.node == Some(id@) || claim_holds(old(sh)@, id@, old(w)@.addr, now)),
{
    let ghost s0 = sh@;
    let ghost w0 = w@;
    w.failing_since = None;
    let known = match &w.node {
        Some(n) => same(n.as_str(), id),
        None => false,
    };
    if known {
        return true;
    }
    if !claim_node(sh, id, w.addr.as_str(), now) {
        drop_watch(sh, w.addr.as_str());
        return false;
    }
    let ghost s1 = sh@;
    if let Some(nw) = sh.nodes.get_mut(id) {
        let ghost n0 = nw.deep_view();
        let ghost all = texts(w.untried@);
        let mut i: usize = 0;
        proof {
            assert(all.take(0) =~= Seq::<Seq<char>>::empty());
        }
        while i < w.untried.len()
            invariant
                i <= w.untried@.len(),
                all == texts(w.untried@),
                nw.addr@ == n0.addr,
                nw.alternates@.dom() == added(n0.alternates, all.take(i as int)),
            decreases w.untried@.len() - i,
        {
            proof {
                assert(all.take(i + 1).drop_last() =~= all.take(i as int));
                assert(all.take(i + 1).last() == w.untried@[i as int]@);
            }
            let ghost had = nw.alternates@.dom();
            nw.alternates.insert(w.untried[i].clone(), ());
            proof {
                assert(nw.alternates@.dom() =~= had.insert(w.untried@[i as int]@));
            }
            i += 1;
        }
        proof {
            assert(all.take(all.len() as int) =~= all);
        }
        let ghost n1 = nw.deep_view();
        proof {
            assert(sh@.nodes =~= s1.nodes.insert(id@, n1));
        }
    }
    w.untried = Vec::new();
    w.node = Some(id.to_string());
    proof {
        assert(w@.untried =~= Seq::<Seq<char>>::empty());
        assert(sh@.nodes =~= replied(s0, w0, id@, now).0.nodes);
    }
    true
}

/// What a watch does next when its address does not reply.
#[derive(Debug)]
pub enum Fallback {
    /// It moved to another address, which is to be polled at once.
    Moved { from: String },
    /// Each of these is to be polled, and the first that replies as the node is
    /// moved to.
    Alternates { list: Vec<String> },
    /// There is nothing else to try.
    Wait,
}

/// The router and the watch after its address did not reply.
pub open spec fn failed(s: SharedV, w: WatcherV, now: u64) -> (SharedV, WatcherV) {
    let f = WatcherV {
        failing_since: Some(
            match w.failing_since {
                Some(t) => t,
                None => now,
            },
        ),
        ..w
    };
    if w.node is None && w.untried.len() > 0 {
        let next = w.untried[0];
        let t = dropped(s, w.addr);
        (
            SharedV {
                watched: t.watched.insert(next),
                daemons: t.daemons.insert(next, unheard(w.seed)),
                ..t
            },
            WatcherV { addr: next, untried: w.untried.skip(1).push(w.addr), ..f },
        )
    } else {
        (s, f)
    }
}

/// Takes in that the watch's address did not reply. Before the node has replied
/// on any address the others are tried in turn: the best-ranked one may be on a
/// link this box cannot use.
pub fn watch_failed(sh: &mut Shared, w: &mut Watcher, now: u64) -> (r: Fallback)
    ensures
        (final(sh)@, final(w)@) == failed(old(sh)@, old(w)@, now),
        match r {
            Fallback::Moved { from } => old(w)@.node is None && old(w)@.untried.len() > 0 && from@
                == old(w)@.addr,
            Fallback::Alternates { list } => old(w)@.node matches Some(id) && texts(list@)
                == alternates_in_order(old(sh)@, id, old(w)@.addr),
            Fallback::Wait => old(w)@.node is None && old(w)@.untried.len() == 0,
        },
{
    let ghost w0 = w@;
    if w.failing_since.is_none() {
        w.failing_since = Some(now);
    }
    match &w.node {
        Some(id) => {
            let list = try_alternates(sh, id.as_str(), w.addr.as_str());
            Fallback::Alternates { list }
        },
        None => {
            if w.untried.len() == 0 {
                return Fallback::Wait;
            }
            proof {
                assert(w0.untried[0] == w.untried@[0]@);
            }
            let next = w.untried.remove(0);
            drop_watch(sh, w.addr.as_str());
            let ghost s1 = sh@;
            sh.watched.insert(next.clone(), ());
            let view = DaemonView::empty(w.seed);
            sh.daemons.insert(next.clone(), view);
            proof {
                assert(sh@.watched =~= s1.watched.insert(next@));
                assert(sh@.daemons =~= s1.daemons.insert(next@, unheard(w0.seed)));
            }
            let from = w.addr.clone();
            w.untried.push(w.addr.clone());
            w.addr = next;
            proof {
                assert(w@.untried =~= w0.untried.skip(1).push(w0.addr));
            }
            Fallback::Moved { from }
        },
    }
}

/// Takes in that an alternate replied as the node: the watch moves to it.
pub fn watch_found(sh: &mut Shared, w: &mut Watcher, next: &str)
    requires
        old(w).node is Some,
    ensures
        final(sh)@ == watch_moved(old(sh)@, old(w)@.node->Some_0, old(w)@.addr, next@),
        final(w)@ == (WatcherV { addr: next@, failing_since: None, ..old(w)@ }),
{
    if let Some(id) = &w.node {
        move_watch(sh, id.as_str(), w.addr.as_str(), next);
    }
    w.addr = next.to_string();
    w.failing_since = None;
}

/// Whether a watch is given up: nobody named it, it has not replied for long,
/// and no live daemon lists it.
pub open spec fn given_up(s: SharedV, w: WatcherV, now: u64) -> bool {
    &&& !w.seed
    &&& w.failing_since matches Some(t) && since(now, t) > s.cfg.model_ttl
    &&& !published(s, w.node, w.addr, now)
}

/// The router after a watch was given up.
pub open spec fn forgotten(s: SharedV, w: WatcherV) -> SharedV {
    let t = dropped(s, w.addr);
    match w.node {
        Some(id) => SharedV { nodes: t.nodes.remove(id), ..t },
        None => t,
    }
}

/// Settles a round in which nothing replied. True when the watch is given up.
pub fn watch_settled(sh: &mut Shared, w: &Watcher, now: u64) -> (r: bool)
    ensures
        r == given_up(old(sh)@, w@, now),
        final(sh)@ == (if r {
            forgotten(old(sh)@, w@)
        } else {
            old(sh)@
        }),
{
    let overdue = match w.failing_since {
        Some(t) => elapsed(now, t) > sh.cfg.model_ttl,
        None => false,
    };
    if w.seed || !overdue || published_alive(sh, &w.node, w.addr.as_str(), now) {
        return false;
    }
    drop_watch(sh, w.addr.as_str());
    let ghost s1 = sh@;
    if let Some(id) = &w.node {
        sh.nodes.remove(id.as_str());
        proof {
            assert(sh@.nodes =~= s1.nodes.remove(id@));
        }
    }
    true
}

/// A daemon the operator named is watched for the life of the process.
pub proof fn law_a_seed_is_never_given_up(s: SharedV, w: WatcherV, now: u64)
    requires
        w.seed,
    ensures
        !given_up(s, w, now),
{
}

/// A daemon that a live one lists is unreachable rather than gone, and stays
/// watched.
pub proof fn law_a_listed_peer_is_never_given_up(s: SharedV, w: WatcherV, now: u64)
    requires
        published(s, w.node, w.addr, now),
    ensures
        !given_up(s, w, now),
{
}

/// Takes in that the event stream of a watch could not be opened.
pub fn events_failed(sh: &mut Shared, addr: &str, seed: bool, error: &str)
    ensures
        final(sh)@ == ({
            let t = with_row(old(sh)@, addr@, seed);
            SharedV {
                daemons: t.daemons.insert(
                    addr@,
                    DaemonV { error: Some("/events: "@ + error@), ..t.daemons[addr@] },
                ),
                ..t
            }
        }),
{
    ensure_row(sh, addr, seed);
    let ghost s1 = sh@;
    if let Some(v) = sh.daemons.get_mut(addr) {
        let mut e = "/events: ".to_string();
        e.append(error);
        v.error = Some(e);
        let ghost v1 = v.deep_view();
        proof {
            assert(sh@.daemons =~= s1.daemons.insert(addr@, v1));
        }
    }
}

/// Whether the snapshot is to be read again while the stream runs: counters move
/// without events, and the read is what discovers peers.
pub fn full_read_due(sh: &Shared, last_full: u64, now: u64) -> (r: bool)
    ensures
        r == (since(now, last_full) >= sh@.cfg.poll_interval),
{
    elapsed(now, last_full) >= sh.cfg.poll_interval
}

} // verus!
