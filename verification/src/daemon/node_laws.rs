//! What a driver is told of nodes and resources, and how a connection is met.

use vstd::prelude::*;
use vstd::string::*;

use crate::common::dict::{lemma_finite_lists, ordered};
use crate::common::json::JsonV;
use crate::common::text::{decimal, digits, first_at, lemma_first_at, number};
use crate::daemon::announce::heard;
use crate::daemon::calls::{
    avail_among, group_of, nodes_of, nodes_with, totals_among, NodeRowV,
};
use crate::daemon::count_laws::{
    at_most_u64, device_taken, gpus_where, lemma_all_counted, lemma_keys, lemma_nothing_counted,
    lemma_tally, lemma_unheld_counted, taken, tally,
};
use crate::daemon::entry::{entry_of, First};
use crate::daemon::filling_laws::usable;
use crate::daemon::ident::{
    agent_node_of, client_node_of, head_of, node_id_of, peer_with, unrepeated, with_port, HeadV,
};
use crate::daemon::proto::{shares_major, PROTO};
use crate::daemon::state::{gpu_indices, loopback, PeerV, StateV};
use crate::daemon::status::counts;

verus! {

// ---------------------------------------------------------------------------
// Nodes and resources
// ---------------------------------------------------------------------------
/// Whether an agent of a group that is alive is on a node.
pub open spec fn on_node(s: StateV, k: Seq<char>, group: Seq<char>, n: Seq<char>) -> bool {
    usable(s, k, group, None) && s.agents[k].node_id == n
}

proof fn lemma_nodes_with(
    s: StateV,
    group: Seq<char>,
    keys: Seq<Seq<char>>,
    start: Map<Seq<char>, NodeRowV>,
    n: Seq<char>,
)
    requires
        forall|i: int| 0 <= i < keys.len() ==> s.agents.contains_key(#[trigger] keys[i]),
        start.contains_key(n) ==> start[n].gpus == 0,
    ensures
        ({
            let m = nodes_with(s, group, keys, start);
            let here = |i: int| on_node(s, keys[i], group, n);
            &&& m.contains_key(n) <==> start.contains_key(n) || exists|i: int|
                0 <= i < keys.len() && on_node(s, #[trigger] keys[i], group, n)
            &&& (if m.contains_key(n) {
                m[n].gpus as int
            } else {
                0
            }) == at_most_u64(
                tally(s, keys, |k: Seq<char>, i: int| on_node(s, k, group, n)),
            )
            &&& m.contains_key(n) ==> m[n].ip == start[n].ip && start.contains_key(n) || exists|i: int|
                0 <= i < keys.len() && on_node(s, #[trigger] keys[i], group, n) && m[n].ip
                    == s.agents[keys[i]].node_ip
        }),
    decreases keys.len(),
{
    let m = nodes_with(s, group, keys, start);
    if keys.len() > 0 {
        let init = keys.drop_last();
        assert forall|i: int| 0 <= i < init.len() implies s.agents.contains_key(
            #[trigger] init[i],
        ) by {
            assert(init[i] == keys[i]);
        }
        lemma_nodes_with(s, group, init, start, n);
        let k = keys.last();
        assert(keys[keys.len() - 1] == k);
        let a = s.agents[k];
        let q = |k: Seq<char>, i: int| on_node(s, k, group, n);
        if on_node(s, k, group, n) {
            lemma_all_counted(k, a.machine.gpus.len(), q);
        } else {
            lemma_nothing_counted(k, a.machine.gpus.len(), q);
        }
        let had = nodes_with(s, group, init, start);
        if exists|i: int| 0 <= i < init.len() && on_node(s, #[trigger] init[i], group, n) {
            let i = choose|i: int| 0 <= i < init.len() && on_node(s, #[trigger] init[i], group, n);
            assert(keys[i] == init[i]);
        }
        if exists|i: int| 0 <= i < keys.len() && on_node(s, #[trigger] keys[i], group, n) {
            let i = choose|i: int| 0 <= i < keys.len() && on_node(s, #[trigger] keys[i], group, n);
            if i < init.len() {
                assert(init[i] == keys[i]);
            }
        }
        if had.contains_key(n) && !(had[n].ip == start[n].ip && start.contains_key(n)) {
            let i = choose|i: int|
                0 <= i < init.len() && on_node(s, #[trigger] init[i], group, n) && had[n].ip
                    == s.agents[init[i]].node_ip;
            assert(keys[i] == init[i]);
        }
    }
}

/// The group of a client; `default` where there is no such client.
pub open spec fn drivers_group(s: StateV, client: Seq<char>) -> Seq<char> {
    if s.clients.contains_key(client) {
        s.clients[client].group
    } else {
        "default"@
    }
}

/// A driver sees its daemon's own node and every node with a live agent of its group,
/// and no other; each with all the GPUs of those agents.
pub proof fn law_a_driver_sees_the_nodes_of_its_group(
    s: StateV,
    client: Seq<char>,
    n: Seq<char>,
)
    requires
        s.agents.dom().finite(),
    ensures
        ({
            let group = drivers_group(s, client);
            let m = nodes_of(s, client);
            let all = gpus_where(s, |k: Seq<char>, i: int| on_node(s, k, group, n));
            &&& all.finite()
            &&& m.contains_key(n) <==> n == s.node_id || exists|k: Seq<char>| #[trigger]
                on_node(s, k, group, n)
            &&& m.contains_key(n) ==> m[n].gpus == at_most_u64(all.len())
        }),
{
    let group = drivers_group(s, client);
    assert(group == group_of(s, client));
    let keys = ordered(s.agents.dom());
    lemma_keys(s);
    lemma_finite_lists(s.agents.dom());
    let start = map![s.node_id => NodeRowV { ip: s.node_ip, gpus: 0, cpus: 8, memory: 0 }];
    lemma_nodes_with(s, group, keys, start, n);
    lemma_tally(s, |k: Seq<char>, i: int| on_node(s, k, group, n));
    if exists|k: Seq<char>| #[trigger] on_node(s, k, group, n) {
        let k = choose|k: Seq<char>| #[trigger] on_node(s, k, group, n);
        assert(s.agents.dom().contains(k));
        assert(keys.contains(k));
        assert(keys[keys.index_of(k)] == k);
    }
}

proof fn lemma_avail(s: StateV, group: Seq<char>, keys: Seq<Seq<char>>, n: Seq<char>)
    requires
        forall|i: int| 0 <= i < keys.len() ==> s.agents.contains_key(#[trigger] keys[i]),
    ensures
        ({
            let m = avail_among(s, group, keys);
            &&& m.contains_key(n) <==> exists|i: int|
                0 <= i < keys.len() && on_node(s, #[trigger] keys[i], group, n)
            &&& (if m.contains_key(n) {
                m[n].gpus as int
            } else {
                0
            }) == at_most_u64(
                tally(
                    s,
                    keys,
                    |k: Seq<char>, i: int| on_node(s, k, group, n) && !device_taken(s, k, i),
                ),
            )
            &&& m.contains_key(n) ==> forall|ip: Seq<char>| #[trigger]
                m[n].ips.contains(ip) <==> exists|i: int|
                    0 <= i < keys.len() && on_node(s, #[trigger] keys[i], group, n)
                        && s.agents[keys[i]].node_ip == ip
        }),
    decreases keys.len(),
{
    let m = avail_among(s, group, keys);
    if keys.len() > 0 {
        let init = keys.drop_last();
        assert forall|i: int| 0 <= i < init.len() implies s.agents.contains_key(
            #[trigger] init[i],
        ) by {
            assert(init[i] == keys[i]);
        }
        lemma_avail(s, group, init, n);
        let k = keys.last();
        assert(keys[keys.len() - 1] == k);
        let a = s.agents[k];
        let all = gpu_indices(a.machine);
        let q = |k: Seq<char>, i: int| on_node(s, k, group, n) && !device_taken(s, k, i);
        if on_node(s, k, group, n) {
            assert forall|i: int| 0 <= i < all.len() implies q(k, i) == (true != taken(
                s,
                k,
                #[trigger] all[i],
            )) by {
                assert(all[i] == a.machine.gpus[i].index);
            }
            lemma_unheld_counted(s, k, all, q, true);
            assert(s.free_gpus(k) == s.unheld(k, all));
        } else {
            lemma_nothing_counted(k, all.len(), q);
        }
        let had = avail_among(s, group, init);
        if exists|i: int| 0 <= i < init.len() && on_node(s, #[trigger] init[i], group, n) {
            let i = choose|i: int| 0 <= i < init.len() && on_node(s, #[trigger] init[i], group, n);
            assert(keys[i] == init[i]);
        }
        if exists|i: int| 0 <= i < keys.len() && on_node(s, #[trigger] keys[i], group, n) {
            let i = choose|i: int| 0 <= i < keys.len() && on_node(s, #[trigger] keys[i], group, n);
            if i < init.len() {
                assert(init[i] == keys[i]);
            }
        }
        if m.contains_key(n) {
            assert forall|ip: Seq<char>| #[trigger] m[n].ips.contains(ip) <==> exists|i: int|
                0 <= i < keys.len() && on_node(s, #[trigger] keys[i], group, n)
                    && s.agents[keys[i]].node_ip == ip by {
                if had.contains_key(n) && had[n].ips.contains(ip) {
                    let i = choose|i: int|
                        0 <= i < init.len() && on_node(s, #[trigger] init[i], group, n)
                            && s.agents[init[i]].node_ip == ip;
                    assert(keys[i] == init[i]);
                }
                if exists|i: int|
                    0 <= i < keys.len() && on_node(s, #[trigger] keys[i], group, n)
                        && s.agents[keys[i]].node_ip == ip {
                    let i = choose|i: int|
                        0 <= i < keys.len() && on_node(s, #[trigger] keys[i], group, n)
                            && s.agents[keys[i]].node_ip == ip;
                    if i < init.len() {
                        assert(init[i] == keys[i]);
                        assert(had.contains_key(n) && had[n].ips.contains(ip));
                    }
                }
            }
        }
    }
}

/// What is available is what is free: for each node with a live agent of the group, the
/// GPUs of those agents that nothing has taken, and the addresses they gave.
pub proof fn law_what_is_available_is_what_is_free(s: StateV, group: Seq<char>, n: Seq<char>)
    requires
        s.agents.dom().finite(),
    ensures
        ({
            let m = avail_among(s, group, ordered(s.agents.dom()));
            let free = gpus_where(
                s,
                |k: Seq<char>, i: int| on_node(s, k, group, n) && !device_taken(s, k, i),
            );
            &&& free.finite()
            &&& m.contains_key(n) <==> exists|k: Seq<char>| #[trigger] on_node(s, k, group, n)
            &&& m.contains_key(n) ==> m[n].gpus == at_most_u64(free.len())
            &&& m.contains_key(n) ==> forall|ip: Seq<char>| #[trigger]
                m[n].ips.contains(ip) <==> exists|k: Seq<char>| #[trigger]
                    on_node(s, k, group, n) && s.agents[k].node_ip == ip
        }),
{
    let keys = ordered(s.agents.dom());
    lemma_keys(s);
    lemma_finite_lists(s.agents.dom());
    lemma_avail(s, group, keys, n);
    lemma_tally(
        s,
        |k: Seq<char>, i: int| on_node(s, k, group, n) && !device_taken(s, k, i),
    );
    assert forall|k: Seq<char>| #[trigger] on_node(s, k, group, n) implies exists|i: int|
        0 <= i < keys.len() && keys[i] == k by {
        assert(s.agents.dom().contains(k));
        assert(keys.contains(k));
    }
    if exists|k: Seq<char>| #[trigger] on_node(s, k, group, n) {
        let k = choose|k: Seq<char>| #[trigger] on_node(s, k, group, n);
        let i = choose|i: int| 0 <= i < keys.len() && keys[i] == k;
        assert(on_node(s, keys[i], group, n));
    }
    let m = avail_among(s, group, keys);
    if m.contains_key(n) {
        assert forall|ip: Seq<char>| #[trigger] m[n].ips.contains(ip) <==> exists|k: Seq<char>|
            #[trigger] on_node(s, k, group, n) && s.agents[k].node_ip == ip by {
            if exists|k: Seq<char>| #[trigger]
                on_node(s, k, group, n) && s.agents[k].node_ip == ip {
                let k = choose|k: Seq<char>| #[trigger]
                    on_node(s, k, group, n) && s.agents[k].node_ip == ip;
                let i = choose|i: int| 0 <= i < keys.len() && keys[i] == k;
                assert(on_node(s, keys[i], group, n));
            }
        }
    }
}

proof fn lemma_totals_among(s: StateV, group: Seq<char>, keys: Seq<Seq<char>>)
    requires
        forall|i: int| 0 <= i < keys.len() ==> s.agents.contains_key(#[trigger] keys[i]),
    ensures
        totals_among(s, group, keys).gpus == at_most_u64(
            tally(s, keys, |k: Seq<char>, i: int| usable(s, k, group, None)),
        ),
    decreases keys.len(),
{
    if keys.len() > 0 {
        let init = keys.drop_last();
        assert forall|i: int| 0 <= i < init.len() implies s.agents.contains_key(
            #[trigger] init[i],
        ) by {
            assert(init[i] == keys[i]);
        }
        lemma_totals_among(s, group, init);
        let k = keys.last();
        assert(keys[keys.len() - 1] == k);
        let q = |k: Seq<char>, i: int| usable(s, k, group, None);
        let len = s.agents[k].machine.gpus.len();
        if usable(s, k, group, None) {
            lemma_all_counted(k, len, q);
        } else {
            lemma_nothing_counted(k, len, q);
        }
    }
}

/// The resources of a group count every GPU of its live agents, taken or not; the cores
/// and the memory of an agent count once, with no other there, as they are.
pub proof fn law_resources_count_every_live_agent(s: StateV, group: Seq<char>, k: Seq<char>)
    requires
        s.agents.dom().finite(),
    ensures
        ({
            let r = totals_among(s, group, ordered(s.agents.dom()));
            let all = gpus_where(s, |k: Seq<char>, i: int| usable(s, k, group, None));
            &&& all.finite()
            &&& r.gpus == at_most_u64(all.len())
            &&& usable(s, k, group, None) ==> r.cpus >= s.agents[k].machine.cpus && r.memory
                >= s.agents[k].machine.memory
            &&& (forall|o: Seq<char>| !#[trigger] usable(s, o, group, None)) ==> r.cpus == 0
                && r.memory == 0
        }),
{
    let keys = ordered(s.agents.dom());
    lemma_keys(s);
    lemma_finite_lists(s.agents.dom());
    lemma_totals_among(s, group, keys);
    lemma_tally(s, |k: Seq<char>, i: int| usable(s, k, group, None));
    lemma_sums(s, group, keys, k);
    if s.agents.contains_key(k) {
        assert(s.agents.dom().contains(k));
        assert(keys.contains(k));
    }
}

proof fn lemma_sums(s: StateV, group: Seq<char>, keys: Seq<Seq<char>>, k: Seq<char>)
    requires
        forall|i: int| 0 <= i < keys.len() ==> s.agents.contains_key(#[trigger] keys[i]),
    ensures
        ({
            let r = totals_among(s, group, keys);
            &&& keys.contains(k) && usable(s, k, group, None) ==> r.cpus
                >= s.agents[k].machine.cpus && r.memory >= s.agents[k].machine.memory
            &&& (forall|o: Seq<char>| !#[trigger] usable(s, o, group, None)) ==> r.cpus == 0
                && r.memory == 0
        }),
    decreases keys.len(),
{
    if keys.len() > 0 {
        let init = keys.drop_last();
        assert forall|i: int| 0 <= i < init.len() implies s.agents.contains_key(
            #[trigger] init[i],
        ) by {
            assert(init[i] == keys[i]);
        }
        lemma_sums(s, group, init, k);
        assert(keys[keys.len() - 1] == keys.last());
        assert(counts(s.agents[keys.last()], group) == usable(s, keys.last(), group, None));
        if keys.contains(k) && k != keys.last() {
            let i = keys.index_of(k);
            assert(init[i] == k);
            assert(init.contains(k));
        }
    }
}

// ---------------------------------------------------------------------------
// Nodes and addresses
// ---------------------------------------------------------------------------
proof fn lemma_peer_with(peers: Map<Seq<char>, PeerV>, ip: Seq<char>, keys: Seq<Seq<char>>)
    ensures
        match peer_with(peers, ip, keys) {
            Some(p) => exists|i: int|
                {
                    &&& 0 <= i < keys.len()
                    &&& p == peers[#[trigger] keys[i]]
                    &&& p.node_ip == ip || p.addrs.contains(ip)
                },
            None => forall|i: int|
                0 <= i < keys.len() ==> peers[#[trigger] keys[i]].node_ip != ip
                    && !peers[keys[i]].addrs.contains(ip),
        },
    decreases keys.len(),
{
    if keys.len() > 0 {
        let tail = keys.drop_first();
        lemma_peer_with(peers, ip, tail);
        if !(peers[keys[0]].node_ip == ip || peers[keys[0]].addrs.contains(ip)) {
            match peer_with(peers, ip, tail) {
                Some(p) => {
                    let i = choose|i: int|
                        {
                            &&& 0 <= i < tail.len()
                            &&& p == peers[#[trigger] tail[i]]
                            &&& p.node_ip == ip || p.addrs.contains(ip)
                        };
                    assert(keys[i + 1] == tail[i]);
                },
                None => {
                    assert forall|i: int| 0 <= i < keys.len() implies peers[
                        #[trigger] keys[i]
                    ].node_ip != ip && !peers[keys[i]].addrs.contains(ip) by {
                        if i > 0 {
                            assert(tail[i - 1] == keys[i]);
                        }
                    }
                },
            }
        }
    }
}

/// Whether an address is a box's own.
pub open spec fn own_address(ip: Seq<char>) -> bool {
    (ip.len() >= 4 && ip.take(4) == "127."@) || ip == "::1"@
}

proof fn lemma_own(ip: Seq<char>)
    ensures
        loopback(ip) == own_address(ip),
{
    reveal_strlit("127.");
}

/// A client at an address of this box is on this node. One at an address that a peer has
/// is on that peer's node.
pub proof fn law_a_client_is_on_the_node_with_its_address(
    s: StateV,
    ip: Seq<char>,
    mine: Seq<Seq<char>>,
)
    requires
        s.peers.dom().finite(),
    ensures
        ({
            let n = client_node_of(s, ip, mine);
            let here = own_address(ip) || ip == s.node_ip || mine.contains(ip);
            let there = |k: Seq<char>|
                s.peers.contains_key(k) && (s.peers[k].node_ip == ip || s.peers[k].addrs.contains(
                    ip,
                ));
            &&& here ==> n == s.node_id
            &&& !here && (exists|k: Seq<char>| #[trigger] there(k)) ==> exists|k: Seq<char>|
                #[trigger] there(k) && n == s.peers[k].node_id
        }),
{
    lemma_own(ip);
    let keys = ordered(s.peers.dom());
    lemma_finite_lists(s.peers.dom());
    lemma_peer_with(s.peers, ip, keys);
    let there = |k: Seq<char>|
        s.peers.contains_key(k) && (s.peers[k].node_ip == ip || s.peers[k].addrs.contains(ip));
    match peer_with(s.peers, ip, keys) {
        Some(p) => {
            let i = choose|i: int|
                {
                    &&& 0 <= i < keys.len()
                    &&& p == s.peers[#[trigger] keys[i]]
                    &&& p.node_ip == ip || p.addrs.contains(ip)
                };
            assert(keys.contains(keys[i]));
            assert(s.peers.dom().contains(keys[i]));
            assert(there(keys[i]));
        },
        None => {
            if exists|k: Seq<char>| #[trigger] there(k) {
                let k = choose|k: Seq<char>| #[trigger] there(k);
                assert(s.peers.dom().contains(k));
                assert(keys.contains(k));
                assert(keys[keys.index_of(k)] == k);
            }
        },
    }
}

/// An agent is on the node whose address it names: on this daemon's where it is this
/// daemon's, and otherwise on the node of that address. One that names none and comes
/// from this box is on this node.
pub proof fn law_an_agent_is_on_the_node_it_names(
    s: StateV,
    named: Seq<char>,
    peer_ip: Seq<char>,
    mine: Seq<Seq<char>>,
)
    ensures
        ({
            let (ip, id) = agent_node_of(s, named, peer_ip, mine);
            &&& named.len() > 0 ==> ip == named
            &&& named.len() > 0 && named == s.node_ip ==> id == s.node_id
            &&& named.len() > 0 && named != s.node_ip ==> id == node_id_of(named)
            &&& named.len() == 0 && (own_address(peer_ip) || mine.contains(peer_ip)) ==> ip
                == s.node_ip && id == s.node_id
        }),
{
    lemma_own(peer_ip);
}

// ---------------------------------------------------------------------------
// Meeting a connection
// ---------------------------------------------------------------------------
/// Where the head is, as a daemon has it: nowhere yet, here, with a live peer, or gone.
pub proof fn law_the_head_is_where_it_is_known_to_be(s: StateV)
    ensures
        head_of(s) is Unknown <==> s.head_node_id.len() == 0,
        head_of(s) is Here <==> s.head_node_id.len() > 0 && s.head_node_id == s.node_id,
        head_of(s) is At <==> s.head_node_id.len() > 0 && s.head_node_id != s.node_id
            && s.peers.contains_key(s.head_node_id) && s.peers[s.head_node_id].alive,
        head_of(s) is At ==> (head_of(s)->At_0).len() > 0 && (head_of(s)->At_0)[0]
            == s.peers[s.head_node_id].link_ip + ":"@ + decimal(
            s.peers[s.head_node_id].control_port as nat,
        ),
{
    if head_of(s) is At {
        let p = s.peers[s.head_node_id];
        let v = seq![
            with_port(p.link_ip, p.control_port),
            with_port(p.node_ip, p.control_port),
        ] + Seq::new(
            p.addrs.len(),
            |i: int| with_port(p.addrs[i], p.control_port),
        );
        lemma_unrepeated(v);
    }
}

proof fn lemma_unrepeated(v: Seq<Seq<char>>)
    requires
        v.len() > 0,
    ensures
        unrepeated(v).len() > 0,
        unrepeated(v)[0] == v[0],
    decreases v.len(),
{
    if v.len() > 1 {
        lemma_unrepeated(v.drop_last());
        assert(v.drop_last()[0] == v[0]);
    } else {
        assert(v.drop_last() =~= Seq::empty());
        assert(unrepeated(v.drop_last()) =~= Seq::empty());
        assert(v.last() == v[0]);
    }
}

/// A client or an agent is served by the head alone: elsewhere it is relayed to it,
/// waits for one to be elected, or is refused. Peers and probes are met by any daemon,
/// and anything else is refused.
pub proof fn law_clients_and_agents_are_the_heads(first: First, head: HeadV, expired: bool)
    ensures
        ({
            let e = entry_of(first, head, expired);
            let guest = first is Hello || first is Register;
            &&& e is Client <==> first is Hello && head is Here
            &&& e is Agent <==> first is Register && head is Here
            &&& e is Relay <==> guest && head is At
            &&& e is Relay ==> e->at == head->At_0
            &&& e is Wait <==> guest && head is Unknown && !expired
            &&& e is Peer <==> first is PeerHello
            &&& e is Answer <==> first is Probe
            &&& e is Refuse <==> first is Other || (guest && (head is Nowhere || (head is Unknown
                && expired)))
        }),
{
}

/// Two versions agree where their majors, which stand before the first point, are the
/// same, and both have a plain number for a minor.
pub proof fn law_versions_agree_on_the_major(a: Seq<char>, b: Seq<char>, i: int, j: int)
    requires
        0 <= i < a.len(),
        0 <= j < b.len(),
        a[i] == '.',
        b[j] == '.',
        forall|x: int| 0 <= x < i ==> a[x] != '.',
        forall|x: int| 0 <= x < j ==> b[x] != '.',
        digits(a.skip(i + 1)) && number(a.skip(i + 1)) <= u32::MAX,
        digits(b.skip(j + 1)) && number(b.skip(j + 1)) <= u32::MAX,
    ensures
        shares_major(a, b) <==> a.take(i) == b.take(j),
{
    lemma_first_at(a, '.');
    lemma_first_at(b, '.');
    assert(first_at(a, '.') == i);
    assert(first_at(b, '.') == j);
}

/// A version without a point agrees with none.
pub proof fn law_a_version_needs_a_point(a: Seq<char>, b: Seq<char>)
    requires
        forall|x: int| 0 <= x < a.len() ==> a[x] != '.',
    ensures
        !shares_major(a, b),
        !shares_major(b, a),
{
    lemma_first_at(a, '.');
}

// ---------------------------------------------------------------------------
// Announcements
// ---------------------------------------------------------------------------
/// An announcement is dialled exactly where it is of this protocol's major, told within
/// the window of this box's clock, from another node that names itself and its run, new
/// in that run, names where to dial, and is of a node with no live link.
pub proof fn law_an_announcement_is_dialled_once(
    s: StateV,
    seen: Map<Seq<char>, (Seq<char>, u64)>,
    v: JsonV,
    now_s: u64,
    window_s: u64,
)
    ensures
        heard(s, seen, v, now_s, window_s) is Dial <==> {
            let node = v.field("node_id"@);
            let boot = v.field("boot_id"@);
            let t = v.field("t"@);
            let seq = v.field("seq"@);
            let control = v.field("control"@);
            let number = if seq is Uint {
                seq->Uint_0
            } else {
                0
            };
            &&& shares_major(
                PROTO@,
                if v.field("proto"@) is Str {
                    v.field("proto"@)->Str_0
                } else {
                    Seq::empty()
                },
            )
            &&& t is Uint && t->Uint_0 <= now_s + window_s && now_s <= t->Uint_0 + window_s
            &&& node is Str && node->Str_0.len() > 0 && node->Str_0 != s.node_id
            &&& boot is Str && boot->Str_0.len() > 0
            &&& !(seen.contains_key(node->Str_0) && seen[node->Str_0].0 == boot->Str_0 && number
                <= seen[node->Str_0].1)
            &&& control is Str && control->Str_0.len() > 0
            &&& !(s.peers.contains_key(node->Str_0) && s.peers[node->Str_0].alive)
        },
        heard(s, seen, v, now_s, window_s) is Dial ==> heard(s, seen, v, now_s, window_s)->control
            == v.field("control"@)->Str_0,
{
}

} // verus!
