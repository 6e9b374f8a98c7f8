//! The groups that the watched daemons describe, and where each can be reached.

use vstd::prelude::*;
use vstd::string::*;

use crate::common::dict::{lemma_ordered, ordered, those, Dict};
use crate::common::json::{meaning, Json, JsonV};
use crate::common::text::{
    before, copied, dec, decimal, lemma_before_irreflexive, lemma_before_total,
    lemma_before_transitive, listed, opt_text, same, sorts_before, texts,
};
use crate::daemon::mesh::{str_list_at, strings_of};
use crate::daemon::sweep::{elapsed, since};
use crate::serve::net::{on_local_net, on_net, permitted, Allow, AllowV, Net};
use crate::serve::shared::{
    best_of, opt_endpoint, DaemonV, Endpoint, EndpointV, GroupEntry, GroupV, Shared, SharedV,
};

verus! {

broadcast use meaning;

// ---------------------------------------------------------------------------
// The addresses of a node
// ---------------------------------------------------------------------------
/// The addresses known by each name of a node.
pub type NodeAddrs = Map<Seq<char>, Seq<Seq<char>>>;

/// The addresses of a node recorded under one of its names, unless as many are
/// known already.
pub open spec fn recorded(out: NodeAddrs, id: Seq<char>, addrs: Seq<Seq<char>>) -> NodeAddrs {
    if addrs.len() == 0 || id.len() == 0 || (out.contains_key(id) && out[id].len() >= addrs.len()) {
        out
    } else {
        out.insert(id, addrs)
    }
}

/// The addresses of a node recorded under each of its names.
pub open spec fn recorded_all(
    out: NodeAddrs,
    ids: Seq<Seq<char>>,
    addrs: Seq<Seq<char>>,
) -> NodeAddrs
    decreases ids.len(),
{
    if ids.len() == 0 {
        out
    } else {
        recorded(recorded_all(out, ids.drop_last(), addrs), ids.last(), addrs)
    }
}

/// The addresses a node listed, or the one it calls itself.
pub open spec fn addrs_or(listed: Seq<Seq<char>>, ip: Seq<char>) -> Seq<Seq<char>> {
    if listed.len() == 0 {
        seq![ip]
    } else {
        listed
    }
}

/// What a snapshot says of the node it came from.
pub open spec fn own_addrs(snap: JsonV, out: NodeAddrs) -> NodeAddrs {
    let own = strings_of(snap.field("addrs"@).items());
    let ip = snap.field("node_ip"@).text_or_empty();
    recorded_all(out, seq![ip] + own, addrs_or(own, ip))
}

/// What a snapshot says of one peer.
pub open spec fn peer_addrs(p: JsonV, out: NodeAddrs) -> NodeAddrs {
    let listed = strings_of(p.field("addrs"@).items());
    let ip = p.field("node_ip"@).text_or_empty();
    recorded_all(
        out,
        seq![ip, p.field("link_ip"@).text_or_empty()] + listed,
        addrs_or(listed, ip),
    )
}

/// What a snapshot says of some peers.
pub open spec fn peers_addrs(
    peers: Map<Seq<char>, JsonV>,
    keys: Seq<Seq<char>>,
    out: NodeAddrs,
) -> NodeAddrs
    decreases keys.len(),
{
    if keys.len() == 0 {
        out
    } else {
        peer_addrs(peers[keys.last()], peers_addrs(peers, keys.drop_last(), out))
    }
}

/// What a snapshot says of every node's addresses.
pub open spec fn snapshot_addrs(snap: JsonV, out: NodeAddrs) -> NodeAddrs {
    let peers = snap.field("peers"@).fields();
    peers_addrs(peers, ordered(peers.dom()), own_addrs(snap, out))
}

fn record(out: &mut Dict<Vec<String>>, id: &str, addrs: &Vec<String>)
    ensures
        final(out).deep_view() == recorded(old(out).deep_view(), id@, texts(addrs@)),
{
    let ghost had = out.deep_view();
    if addrs.len() == 0 || id.is_empty() {
        return;
    }
    if let Some(prev) = out.get(id) {
        proof {
            assert(had[id@] =~= texts(prev@));
        }
        if prev.len() >= addrs.len() {
            return;
        }
    }
    let c = copied(addrs);
    proof {
        assert(c.deep_view() =~= texts(addrs@));
    }
    out.insert(id.to_string(), c);
    proof {
        assert(out.deep_view() =~= had.insert(id@, texts(addrs@)));
    }
}

fn record_all(out: &mut Dict<Vec<String>>, ids: &Vec<String>, addrs: &Vec<String>)
    ensures
        final(out).deep_view() == recorded_all(old(out).deep_view(), texts(ids@), texts(addrs@)),
{
    let ghost start = out.deep_view();
    let ghost all = texts(ids@);
    let mut i: usize = 0;
    while i < ids.len()
        invariant
            i <= ids@.len(),
            all == texts(ids@),
            out.deep_view() == recorded_all(start, all.take(i as int), texts(addrs@)),
        decreases ids@.len() - i,
    {
        proof {
            assert(all.take(i + 1).drop_last() =~= all.take(i as int));
            assert(all.take(i + 1).last() == ids@[i as int]@);
        }
        record(out, ids[i].as_str(), addrs);
        i += 1;
    }
    proof {
        assert(all.take(all.len() as int) =~= all);
    }
}

fn record_node(out: &mut Dict<Vec<String>>, names: Vec<String>, addrs: Vec<String>, ip: String)
    ensures
        final(out).deep_view() == recorded_all(
            old(out).deep_view(),
            texts(names@) + texts(addrs@),
            addrs_or(texts(addrs@), ip@),
        ),
{
    let ghost n0 = texts(names@);
    let mut ids = names;
    let mut i: usize = 0;
    proof {
        assert(n0 + texts(addrs@).take(0) =~= n0);
    }
    while i < addrs.len()
        invariant
            i <= addrs@.len(),
            texts(ids@) == n0 + texts(addrs@).take(i as int),
        decreases addrs@.len() - i,
    {
        let ghost was = texts(ids@);
        ids.push(addrs[i].clone());
        proof {
            assert(texts(ids@) =~= was.push(addrs@[i as int]@));
            assert(texts(ids@) =~= n0 + texts(addrs@).take(i + 1));
        }
        i += 1;
    }
    proof {
        assert(texts(addrs@).take(addrs@.len() as int) =~= texts(addrs@));
    }
    if addrs.len() == 0 {
        let mut one: Vec<String> = Vec::new();
        one.push(ip);
        proof {
            assert(texts(one@) =~= seq![ip@]);
        }
        record_all(out, &ids, &one);
    } else {
        record_all(out, &ids, &addrs);
    }
}

/// Adds to `out` what one daemon's snapshot says of every node's addresses,
/// best first.
///
/// A node is known by every address that identifies it: the name it calls
/// itself, the address a mesh link reached it on, and each address it
/// advertises. An agent registers under whichever of them its container was
/// configured with. Of several descriptions the longest list wins: a peer that
/// reports one address has not contradicted a daemon that reports three.
pub fn collect_node_addrs(snap: &Json, out: &mut Dict<Vec<String>>)
    ensures
        final(out).deep_view() == snapshot_addrs(snap.v(), old(out).deep_view()),
{
    let own = str_list_at(snap, "addrs");
    let ip = snap.text_or_empty_at("node_ip");
    let mut names: Vec<String> = Vec::new();
    names.push(ip.clone());
    proof {
        assert(texts(names@) =~= seq![ip@]);
    }
    record_node(out, names, own, ip);
    let ghost base = out.deep_view();
    let ghost peers = snap.v().field("peers"@).fields();
    match snap.fields_at("peers") {
        Some(d) => {
            let n: usize = d.len();
            let ghost order = d.order();
            let mut i: usize = 0;
            proof {
                assert(d.deep_view() == peers);
                assert(peers.dom() =~= d@.dom());
                assert(order.take(0) =~= Seq::<Seq<char>>::empty());
            }
            while i < n
                invariant
                    i <= n,
                    n == order.len(),
                    order == d.order(),
                    d.deep_view() == peers,
                    out.deep_view() == peers_addrs(peers, order.take(i as int), base),
                decreases n - i,
            {
                let p = d.val_at(i);
                proof {
                    assert(order.take(i + 1).drop_last() =~= order.take(i as int));
                    assert(order.take(i + 1).last() == order[i as int]);
                    assert(peers[order[i as int]] == p.v());
                }
                let listed = str_list_at(p, "addrs");
                let ip = p.text_or_empty_at("node_ip");
                let link = p.text_or_empty_at("link_ip");
                let mut names: Vec<String> = Vec::new();
                names.push(ip.clone());
                names.push(link);
                proof {
                    assert(texts(names@) =~= seq![ip@, link@]);
                }
                record_node(out, names, listed, ip);
                i += 1;
            }
            proof {
                assert(order.take(order.len() as int) =~= order);
            }
        },
        None => {
            proof {
                assert(peers.dom() =~= Set::empty());
                lemma_ordered(Seq::<Seq<char>>::empty(), peers.dom());
            }
        },
    }
}

// ---------------------------------------------------------------------------
// Endpoints
// ---------------------------------------------------------------------------
/// The hosts that hold something and are permitted, each once.
pub open spec fn gated(hosts: Seq<Seq<char>>, a: AllowV, local: Seq<Net>) -> Seq<Seq<char>>
    decreases hosts.len(),
{
    if hosts.len() == 0 {
        Seq::empty()
    } else {
        let had = gated(hosts.drop_last(), a, local);
        let h = hosts.last();
        if h.len() > 0 && permitted(a, h, local) && !had.contains(h) {
            had.push(h)
        } else {
            had
        }
    }
}

/// The hosts on this box's own networks, or those that are not, in order.
pub open spec fn on_side(hosts: Seq<Seq<char>>, local: Seq<Net>, near: bool) -> Seq<Seq<char>>
    decreases hosts.len(),
{
    if hosts.len() == 0 {
        Seq::empty()
    } else {
        let had = on_side(hosts.drop_last(), local, near);
        if on_net(hosts.last(), local) == near {
            had.push(hosts.last())
        } else {
            had
        }
    }
}

/// The hosts to try, best first: those on this box's own networks before the
/// others, and within each the node's own order.
pub open spec fn ranked(hosts: Seq<Seq<char>>, a: AllowV, local: Seq<Net>) -> Seq<Seq<char>> {
    let g = gated(hosts, a, local);
    on_side(g, local, true) + on_side(g, local, false)
}

/// A base URL.
pub open spec fn base_url(host: Seq<char>, port: u64, path: Seq<char>) -> Seq<char> {
    "http://"@ + host + ":"@ + decimal(port as nat) + path
}

/// The addresses of the node that an agent runs on.
pub open spec fn hosts_of(nodes: NodeAddrs, ip: Seq<char>) -> Seq<Seq<char>> {
    if nodes.contains_key(ip) {
        nodes[ip]
    } else {
        seq![ip]
    }
}

/// A text, where it holds something.
pub open spec fn filled(s: Option<Seq<char>>) -> Option<Seq<char>> {
    match s {
        Some(t) if t.len() > 0 => Some(t),
        _ => None,
    }
}

/// One agent's announcement of a service, resolved into base URLs to try.
pub open spec fn endpoint(
    agent: JsonV,
    svc: Seq<char>,
    nodes: NodeAddrs,
    a: AllowV,
    local: Seq<Net>,
) -> Option<EndpointV> {
    let e = agent.field("services"@).field(svc);
    let note = filled(e.field("note"@).text());
    let path = e.field("path"@).text_or_empty();
    let ip = agent.field("node_ip"@).text_or_empty();
    match e.field("port"@).uint() {
        Some(port) => match filled(e.field("host"@).text()) {
            Some(host) => Some(
                EndpointV {
                    candidates: seq![base_url(host, port, path)],
                    announced: base_url(host, port, path),
                    note,
                },
            ),
            None => Some(
                EndpointV {
                    candidates: ranked(hosts_of(nodes, ip), a, local).map_values(
                        |h: Seq<char>| base_url(h, port, path),
                    ),
                    announced: "port "@ + decimal(port as nat) + path + " on node "@ + ip,
                    note,
                },
            ),
        },
        None => None,
    }
}

fn url_of(host: &str, port: u64, path: &str) -> (r: String)
    ensures
        r@ == base_url(host@, port, path@),
{
    let mut u = "http://".to_string();
    u.append(host);
    u.append(":");
    u.append(dec(port).as_str());
    u.append(path);
    u
}

fn gate(hosts: &Vec<String>, allowed: &Allow, local: &Vec<Net>) -> (r: Vec<String>)
    ensures
        texts(r@) == gated(texts(hosts@), allowed@, local@),
{
    let ghost all = texts(hosts@);
    let mut out: Vec<String> = Vec::new();
    let mut i: usize = 0;
    proof {
        assert(texts(out@) =~= Seq::<Seq<char>>::empty());
    }
    while i < hosts.len()
        invariant
            i <= hosts@.len(),
            all == texts(hosts@),
            texts(out@) == gated(all.take(i as int), allowed@, local@),
        decreases hosts@.len() - i,
    {
        let h = hosts[i].as_str();
        proof {
            assert(all.take(i + 1).drop_last() =~= all.take(i as int));
            assert(all.take(i + 1).last() == h@);
        }
        if !h.is_empty() && allowed.permits(h, local) && !listed(&out, h) {
            let ghost was = out@;
            out.push(hosts[i].clone());
            proof {
                assert(texts(out@) =~= texts(was).push(h@));
            }
        }
        i += 1;
    }
    proof {
        assert(all.take(all.len() as int) =~= all);
    }
    out
}

fn side(hosts: &Vec<String>, local: &Vec<Net>, near: bool) -> (r: Vec<String>)
    ensures
        texts(r@) == on_side(texts(hosts@), local@, near),
{
    let ghost all = texts(hosts@);
    let mut out: Vec<String> = Vec::new();
    let mut i: usize = 0;
    proof {
        assert(texts(out@) =~= Seq::<Seq<char>>::empty());
    }
    while i < hosts.len()
        invariant
            i <= hosts@.len(),
            all == texts(hosts@),
            texts(out@) == on_side(all.take(i as int), local@, near),
        decreases hosts@.len() - i,
    {
        let h = hosts[i].as_str();
        proof {
            assert(all.take(i + 1).drop_last() =~= all.take(i as int));
            assert(all.take(i + 1).last() == h@);
        }
        if on_local_net(h, local) == near {
            let ghost was = out@;
            out.push(hosts[i].clone());
            proof {
                assert(texts(out@) =~= texts(was).push(h@));
            }
        }
        i += 1;
    }
    proof {
        assert(all.take(all.len() as int) =~= all);
    }
    out
}

fn urls(hosts: &Vec<String>, port: u64, path: &str, out: &mut Vec<String>)
    ensures
        texts(final(out)@) == texts(old(out)@) + texts(hosts@).map_values(
            |h: Seq<char>| base_url(h, port, path@),
        ),
{
    let ghost start = texts(out@);
    let ghost made = texts(hosts@).map_values(|h: Seq<char>| base_url(h, port, path@));
    let mut i: usize = 0;
    proof {
        assert(start + made.take(0) =~= start);
    }
    while i < hosts.len()
        invariant
            i <= hosts@.len(),
            made == texts(hosts@).map_values(|h: Seq<char>| base_url(h, port, path@)),
            texts(out@) == start + made.take(i as int),
        decreases hosts@.len() - i,
    {
        let ghost was = out@;
        let u = url_of(hosts[i].as_str(), port, path);
        let ghost uv = u@;
        out.push(u);
        proof {
            assert(texts(out@) =~= texts(was).push(uv));
            assert(made[i as int] == uv);
            assert(texts(out@) =~= start + made.take(i + 1));
        }
        i += 1;
    }
    proof {
        assert(made.take(made.len() as int) =~= made);
    }
}

/// Text that holds something, of a name.
fn filled_at(j: Option<&Json>, key: &str) -> (r: Option<String>)
    ensures
        opt_text(r) == filled(
            (match j {
                Some(x) => x.v(),
                None => JsonV::Null,
            }).field(key@).text(),
        ),
{
    match j {
        Some(x) => match x.text_at(key) {
            Some(s) => if s.is_empty() {
                None
            } else {
                Some(s.to_string())
            },
            None => None,
        },
        None => None,
    }
}

/// One agent's announcement of `svc`, resolved into base URLs to try.
///
/// An announcement that names a host resolves to it and passes no check: the
/// operator chose which address to use. One that names a port is resolved
/// against the announcing node's own ranked addresses, and the allowlist gates
/// every address that produces: those are addresses this router derived.
///
/// Within the node's ranking, an address on one of this box's own networks comes
/// first. The node ranks its links by speed because only it can, and the router
/// by whether it shares the wire, because only it can.
pub fn endpoint_of(
    agent: &Json,
    svc: &str,
    nodes: &Dict<Vec<String>>,
    allowed: &Allow,
    local: &Vec<Net>,
) -> (r: Option<Endpoint>)
    ensures
        opt_endpoint(r) == endpoint(agent.v(), svc@, nodes.deep_view(), allowed@, local@),
{
    let services = agent.get("services");
    let entry = match services {
        Some(s) => s.get(svc),
        None => None,
    };
    let note = filled_at(entry, "note");
    let port: u64 = match entry {
        Some(e) => match e.uint_at("port") {
            Some(p) => p,
            None => return None,
        },
        None => return None,
    };
    let path = match entry {
        Some(e) => e.text_or_empty_at("path"),
        None => String::new(),
    };
    if let Some(host) = filled_at(entry, "host") {
        let url = url_of(host.as_str(), port, path.as_str());
        let mut candidates: Vec<String> = Vec::new();
        candidates.push(url.clone());
        proof {
            assert(texts(candidates@) =~= seq![url@]);
        }
        return Some(Endpoint { candidates, announced: url, note });
    }
    let ip = agent.text_or_empty_at("node_ip");
    let ghost nv = nodes.deep_view();
    let hosts: Vec<String> = match nodes.get(ip.as_str()) {
        Some(v) => {
            proof {
                assert(nv[ip@] =~= texts(v@));
            }
            copied(v)
        },
        None => {
            let mut one: Vec<String> = Vec::new();
            one.push(ip.clone());
            proof {
                assert(texts(one@) =~= seq![ip@]);
            }
            one
        },
    };
    let kept = gate(&hosts, allowed, local);
    let near = side(&kept, local, true);
    let far = side(&kept, local, false);
    let mut candidates: Vec<String> = Vec::new();
    urls(&near, port, path.as_str(), &mut candidates);
    urls(&far, port, path.as_str(), &mut candidates);
    proof {
        let f = |h: Seq<char>| base_url(h, port, path@);
        assert(texts(candidates@) =~= (texts(near@) + texts(far@)).map_values(f));
    }
    let mut announced = "port ".to_string();
    announced.append(dec(port).as_str());
    announced.append(path.as_str());
    announced.append(" on node ");
    announced.append(ip.as_str());
    Some(Endpoint { candidates, announced, note })
}

/// Every host that is tried passed the allowlist, comes from the node's own
/// list, and is tried once.
pub proof fn law_only_permitted_hosts_are_tried(
    hosts: Seq<Seq<char>>,
    a: AllowV,
    local: Seq<Net>,
)
    ensures
        forall|h: Seq<char>|
            #[trigger] ranked(hosts, a, local).contains(h) <==> hosts.contains(h) && h.len() > 0
                && permitted(a, h, local),
        ranked(hosts, a, local).no_duplicates(),
{
    let g = gated(hosts, a, local);
    let near = on_side(g, local, true);
    let far = on_side(g, local, false);
    lemma_gated(hosts, a, local);
    lemma_on_side(g, local, true);
    lemma_on_side(g, local, false);
    let r = ranked(hosts, a, local);
    assert forall|h: Seq<char>| #[trigger]
        r.contains(h) <==> hosts.contains(h) && h.len() > 0 && permitted(a, h, local) by {
        if r.contains(h) {
            let i = r.index_of(h);
            if i < near.len() {
                assert(near[i] == h);
                assert(near.contains(h));
            } else {
                assert(far[i - near.len()] == h);
                assert(far.contains(h));
            }
            assert(g.contains(h));
        }
        if hosts.contains(h) && h.len() > 0 && permitted(a, h, local) {
            assert(g.contains(h));
            if on_net(h, local) {
                assert(near.contains(h));
                assert(r[near.index_of(h)] == h);
            } else {
                assert(far.contains(h));
                assert(r[near.len() + far.index_of(h)] == h);
            }
        }
    }
    assert forall|i: int, j: int| 0 <= i < r.len() && 0 <= j < r.len() && i != j implies r[i]
        != r[j] by {
        if i < near.len() {
            assert(near.contains(near[i]));
        } else {
            assert(far.contains(far[i - near.len()]));
        }
        if j < near.len() {
            assert(near.contains(near[j]));
        } else {
            assert(far.contains(far[j - near.len()]));
        }
    }
}

/// A host on one of this box's own networks is tried before every other.
pub proof fn law_a_shared_wire_comes_first(
    hosts: Seq<Seq<char>>,
    a: AllowV,
    local: Seq<Net>,
    i: int,
    j: int,
)
    requires
        0 <= i < ranked(hosts, a, local).len(),
        0 <= j < ranked(hosts, a, local).len(),
        on_net(ranked(hosts, a, local)[i], local),
        !on_net(ranked(hosts, a, local)[j], local),
    ensures
        i < j,
{
    let g = gated(hosts, a, local);
    let near = on_side(g, local, true);
    let far = on_side(g, local, false);
    lemma_on_side(g, local, true);
    lemma_on_side(g, local, false);
    if j < near.len() {
        assert(near.contains(near[j]));
    }
    if i >= near.len() {
        assert(far.contains(far[i - near.len()]));
    }
}

proof fn lemma_gated(hosts: Seq<Seq<char>>, a: AllowV, local: Seq<Net>)
    ensures
        forall|h: Seq<char>|
            #[trigger] gated(hosts, a, local).contains(h) <==> hosts.contains(h) && h.len() > 0
                && permitted(a, h, local),
        gated(hosts, a, local).no_duplicates(),
    decreases hosts.len(),
{
    if hosts.len() > 0 {
        let t = hosts.drop_last();
        let l = hosts.last();
        lemma_gated(t, a, local);
        let had = gated(t, a, local);
        let g = gated(hosts, a, local);
        assert forall|h: Seq<char>| #[trigger]
            g.contains(h) <==> hosts.contains(h) && h.len() > 0 && permitted(a, h, local) by {
            if hosts.contains(h) && h != l {
                let i = hosts.index_of(h);
                assert(t[i] == h);
            }
            if t.contains(h) {
                let i = t.index_of(h);
                assert(hosts[i] == h);
            }
            assert(hosts[hosts.len() - 1] == l);
            if had.contains(h) && g.len() > had.len() {
                assert(g[had.index_of(h)] == h);
            }
            if g.len() > had.len() {
                assert(g[had.len() as int] == l);
            }
            if g.contains(h) && g.len() > had.len() {
                let i = g.index_of(h);
                if i < had.len() {
                    assert(had[i] == h);
                }
            }
        }
    }
}

proof fn lemma_on_side(hosts: Seq<Seq<char>>, local: Seq<Net>, near: bool)
    ensures
        forall|h: Seq<char>|
            #[trigger] on_side(hosts, local, near).contains(h) <==> hosts.contains(h) && on_net(
                h,
                local,
            ) == near,
        hosts.no_duplicates() ==> on_side(hosts, local, near).no_duplicates(),
    decreases hosts.len(),
{
    if hosts.len() > 0 {
        let t = hosts.drop_last();
        let l = hosts.last();
        lemma_on_side(t, local, near);
        let had = on_side(t, local, near);
        let g = on_side(hosts, local, near);
        assert forall|h: Seq<char>| #[trigger]
            g.contains(h) <==> hosts.contains(h) && on_net(h, local) == near by {
            if hosts.contains(h) && h != l {
                let i = hosts.index_of(h);
                assert(t[i] == h);
            }
            if t.contains(h) {
                let i = t.index_of(h);
                assert(hosts[i] == h);
            }
            assert(hosts[hosts.len() - 1] == l);
            if had.contains(h) && g.len() > had.len() {
                assert(g[had.index_of(h)] == h);
            }
            if g.len() > had.len() {
                assert(g[had.len() as int] == l);
            }
            if g.contains(h) && g.len() > had.len() {
                let i = g.index_of(h);
                if i < had.len() {
                    assert(had[i] == h);
                }
            }
        }
        if hosts.no_duplicates() {
            assert(t.no_duplicates());
            if had.contains(l) {
                assert(t.contains(l));
                let i = t.index_of(l);
                assert(hosts[i] == hosts[hosts.len() - 1]);
            }
            if g.len() > had.len() {
                assert forall|i: int, j: int|
                    0 <= i < g.len() && 0 <= j < g.len() && i != j implies g[i] != g[j] by {
                    if i < had.len() {
                        assert(had.contains(had[i]));
                    }
                    if j < had.len() {
                        assert(had.contains(had[j]));
                    }
                }
            }
        }
    }
}

// ---------------------------------------------------------------------------
// Choosing among announcements
// ---------------------------------------------------------------------------
/// The order of two best candidates: none comes before any.
pub open spec fn opt_before(a: Option<Seq<char>>, b: Option<Seq<char>>) -> bool {
    match (a, b) {
        (None, Some(_)) => true,
        (Some(x), Some(y)) => before(x, y),
        _ => false,
    }
}

fn sorts_first(a: Option<&str>, b: Option<&str>) -> (r: bool)
    ensures
        r == opt_before(
            match a {
                Some(x) => Some(x@),
                None => None,
            },
            match b {
                Some(x) => Some(x@),
                None => None,
            },
        ),
{
    match (a, b) {
        (None, Some(_)) => true,
        (Some(x), Some(y)) => sorts_before(x, y),
        _ => false,
    }
}

/// Announcements as mathematical values.
pub open spec fn offers(v: Seq<(Endpoint, String)>) -> Seq<(EndpointV, Seq<char>)> {
    Seq::new(v.len(), |i: int| (v[i].0@, v[i].1@))
}

/// The announcement whose best candidate sorts first; of two equal ones the
/// first.
pub open spec fn first_offer(v: Seq<(EndpointV, Seq<char>)>) -> Option<(EndpointV, Seq<char>)>
    decreases v.len(),
{
    if v.len() == 0 {
        None
    } else {
        match first_offer(v.skip(1)) {
            Some(later) if opt_before(best_of(later.0), best_of(v[0].0)) => Some(later),
            _ => Some(v[0]),
        }
    }
}

/// The `openai` endpoint a group routes to, and the provider of the agent that
/// announced it.
///
/// Only the rank running the API server is meant to announce one, and nothing
/// enforces it. Several resolve by best candidate, for determinism. The
/// provider follows that same agent, since it describes the engine behind that
/// endpoint.
pub fn best_openai(announced: Vec<(Endpoint, String)>) -> (r: (Option<Endpoint>, String))
    ensures
        match first_offer(offers(announced@)) {
            Some((e, p)) => opt_endpoint(r.0) == Some(e) && r.1@ == p,
            None => r.0 is None && r.1@ == Seq::<char>::empty(),
        },
{
    let ghost all = offers(announced@);
    let mut left = announced;
    let mut won: Option<(Endpoint, String)> = None;
    proof {
        assert(all.skip(all.len() as int) =~= Seq::<(EndpointV, Seq<char>)>::empty());
    }
    while left.len() > 0
        invariant
            left@.len() <= all.len(),
            offers(left@) =~= all.take(left@.len() as int),
            match won {
                Some(w) => first_offer(all.skip(left@.len() as int)) == Some((w.0@, w.1@)),
                None => first_offer(all.skip(left@.len() as int)) is None,
            },
        decreases left@.len(),
    {
        let ghost n = left@.len() - 1;
        let ghost was = left@;
        let head = match left.pop() {
            Some(h) => h,
            None => return (None, String::new()),
        };
        proof {
            assert(offers(was)[n] == (head.0@, head.1@));
            assert(all.skip(n)[0] == (head.0@, head.1@));
            assert(all.skip(n).skip(1) =~= all.skip(n + 1));
            assert(offers(left@) =~= all.take(n));
        }
        won = match won {
            Some(w) => if sorts_first(w.0.best(), head.0.best()) {
                Some(w)
            } else {
                Some(head)
            },
            None => Some(head),
        };
    }
    proof {
        assert(all.skip(0) =~= all);
    }
    match won {
        Some((e, p)) => (Some(e), p),
        None => {
            let none = String::new();
            proof {
                assert(none@ =~= Seq::<char>::empty());
            }
            (None, none)
        },
    }
}

/// The endpoint that won is one that was announced, with its own agent's
/// provider, and no other announcement sorts before it.
pub proof fn law_the_provider_follows_the_endpoint(v: Seq<(EndpointV, Seq<char>)>)
    ensures
        v.len() > 0 ==> first_offer(v) is Some,
        first_offer(v) matches Some(w) ==> v.contains(w) && forall|i: int|
            0 <= i < v.len() ==> !opt_before(best_of((#[trigger] v[i]).0), best_of(w.0)),
    decreases v.len(),
{
    if v.len() > 0 {
        let rest = v.skip(1);
        law_the_provider_follows_the_endpoint(rest);
        let w = first_offer(v)->Some_0;
        match first_offer(rest) {
            Some(later) => {
                let k = rest.index_of(later);
                assert(v[k + 1] == later);
                assert forall|i: int| 0 <= i < v.len() implies !opt_before(
                    best_of((#[trigger] v[i]).0),
                    best_of(w.0),
                ) by {
                    lemma_opt_order(best_of(v[0].0), best_of(later.0), best_of(v[i].0));
                    if i > 0 {
                        assert(rest[i - 1] == v[i]);
                    }
                }
            },
            None => {
                assert(v[0] == w);
                lemma_opt_order(best_of(v[0].0), best_of(v[0].0), best_of(v[0].0));
            },
        }
        assert(v[0] == v[0]);
    }
}

proof fn lemma_opt_order(a: Option<Seq<char>>, b: Option<Seq<char>>, c: Option<Seq<char>>)
    ensures
        !opt_before(a, a),
        opt_before(a, b) && opt_before(b, c) ==> opt_before(a, c),
        opt_before(c, a) && opt_before(a, b) ==> opt_before(c, b),
        opt_before(b, a) && opt_before(a, b) ==> false,
        opt_before(c, a) && !opt_before(b, a) ==> opt_before(c, b),
{
    if let Some(x) = a {
        lemma_before_irreflexive(x);
    }
    match (a, b, c) {
        (Some(x), Some(y), Some(z)) => {
            if before(x, y) && before(y, z) {
                lemma_before_transitive(x, y, z);
            }
            if before(z, x) && before(x, y) {
                lemma_before_transitive(z, x, y);
            }
            if before(y, x) && before(x, y) {
                lemma_before_transitive(y, x, y);
                lemma_before_irreflexive(y);
            }
            lemma_before_total(x, y);
            if before(z, x) && !before(y, x) {
                if before(x, y) {
                    lemma_before_transitive(z, x, y);
                }
            }
        },
        (Some(x), Some(y), None) => {
            if before(y, x) && before(x, y) {
                lemma_before_transitive(y, x, y);
                lemma_before_irreflexive(y);
            }
        },
        _ => {},
    }
}

// ---------------------------------------------------------------------------
// The group table
// ---------------------------------------------------------------------------
/// Whether an agent's row is of a live agent.
pub open spec fn live_row(a: JsonV) -> bool {
    a.field("alive"@).is_true()
}

/// The endpoints that some agents announce for `openai`, with their providers.
pub open spec fn openai_offers(
    agents: Map<Seq<char>, JsonV>,
    keys: Seq<Seq<char>>,
    nodes: NodeAddrs,
    a: AllowV,
    local: Seq<Net>,
) -> Seq<(EndpointV, Seq<char>)>
    decreases keys.len(),
{
    if keys.len() == 0 {
        Seq::empty()
    } else {
        let had = openai_offers(agents, keys.drop_last(), nodes, a, local);
        let row = agents[keys.last()];
        match endpoint(row, "openai"@, nodes, a, local) {
            Some(e) if live_row(row) => had.push(
                (
                    e,
                    row.field("services"@).field("openai"@).field("provider"@).text_or_empty(),
                ),
            ),
            _ => had,
        }
    }
}

/// Whether an endpoint is preferred for the tools: one of an agent that serves
/// `openai` as well before one that does not, then by best candidate.
pub open spec fn mcp_before(x: (bool, EndpointV), y: (bool, EndpointV)) -> bool {
    (x.0 && !y.0) || (x.0 == y.0 && opt_before(best_of(x.1), best_of(y.1)))
}

/// The endpoint for the tools among those that some agents announce, and
/// whether its agent serves `openai` as well.
pub open spec fn mcp_offer(
    agents: Map<Seq<char>, JsonV>,
    keys: Seq<Seq<char>>,
    nodes: NodeAddrs,
    a: AllowV,
    local: Seq<Net>,
) -> Option<(bool, EndpointV)>
    decreases keys.len(),
{
    if keys.len() == 0 {
        None
    } else {
        let had = mcp_offer(agents, keys.drop_last(), nodes, a, local);
        let row = agents[keys.last()];
        match endpoint(row, "mcp"@, nodes, a, local) {
            Some(e) if live_row(row) => {
                let new = (row.field("services"@).field("openai"@) != JsonV::Null, e);
                match had {
                    Some(h) if !mcp_before(new, h) => had,
                    _ => Some(new),
                }
            },
            _ => had,
        }
    }
}

/// A group as a daemon's snapshot describes it.
pub open spec fn group_of(
    name: Seq<char>,
    daemon: Seq<char>,
    g: JsonV,
    nodes: NodeAddrs,
    a: AllowV,
    local: Seq<Net>,
) -> GroupV {
    let agents = g.field("agents"@).fields();
    let actors = g.field("actors"@).fields();
    let keys = ordered(agents.dom());
    let won = first_offer(openai_offers(agents, keys, nodes, a, local));
    GroupV {
        group: name,
        daemon,
        agents_alive: those(keys, |k: Seq<char>| live_row(agents[k])).len() as int,
        running: those(
            ordered(actors.dom()),
            |k: Seq<char>| actors[k].field("state"@).text() == Some("running"@),
        ).len() as int,
        openai: match won {
            Some((e, p)) => Some(e),
            None => None,
        },
        mcp: match mcp_offer(agents, keys, nodes, a, local) {
            Some((b, e)) => Some(e),
            None => None,
        },
        provider: match won {
            Some((e, p)) => p,
            None => Seq::empty(),
        },
        placed: ordered(actors.dom()).len() > 0,
    }
}

/// Whether one description of a group replaces another: it has more running
/// actors, then more live agents, then the daemon that sorts first.
pub open spec fn outranks(x: GroupV, y: GroupV) -> bool {
    x.running > y.running || (x.running == y.running && (x.agents_alive > y.agents_alive || (
    x.agents_alive == y.agents_alive && before(x.daemon, y.daemon))))
}

/// The table with one more description of a group.
pub open spec fn tabled(out: Map<Seq<char>, GroupV>, e: GroupV) -> Map<Seq<char>, GroupV> {
    if out.contains_key(e.group) && !outranks(e, out[e.group]) {
        out
    } else {
        out.insert(e.group, e)
    }
}

/// The table with what one daemon says of some groups.
pub open spec fn daemon_groups(
    out: Map<Seq<char>, GroupV>,
    daemon: Seq<char>,
    groups: Map<Seq<char>, JsonV>,
    keys: Seq<Seq<char>>,
    nodes: NodeAddrs,
    a: AllowV,
    local: Seq<Net>,
) -> Map<Seq<char>, GroupV>
    decreases keys.len(),
{
    if keys.len() == 0 {
        out
    } else {
        tabled(
            daemon_groups(out, daemon, groups, keys.drop_last(), nodes, a, local),
            group_of(keys.last(), daemon, groups[keys.last()], nodes, a, local),
        )
    }
}

/// Whether a daemon was heard recently: within three polls.
pub open spec fn fresh_view(d: DaemonV, now: u64, poll: u64) -> bool {
    d.seen matches Some(t) && since(now, t) <= poll * 3
}

/// The table of what some daemons say.
pub open spec fn all_groups(
    daemons: Map<Seq<char>, DaemonV>,
    keys: Seq<Seq<char>>,
    now: u64,
    poll: u64,
    nodes: NodeAddrs,
    a: AllowV,
    local: Seq<Net>,
) -> Map<Seq<char>, GroupV>
    decreases keys.len(),
{
    if keys.len() == 0 {
        Map::empty()
    } else {
        let had = all_groups(daemons, keys.drop_last(), now, poll, nodes, a, local);
        let d = daemons[keys.last()];
        match d.status {
            Some(snap) if fresh_view(d, now, poll) => {
                let groups = snap.field("groups"@).fields();
                daemon_groups(had, keys.last(), groups, ordered(groups.dom()), nodes, a, local)
            },
            _ => had,
        }
    }
}

/// The addresses of every node that some daemons describe.
pub open spec fn all_addrs(daemons: Map<Seq<char>, DaemonV>, keys: Seq<Seq<char>>) -> NodeAddrs
    decreases keys.len(),
{
    if keys.len() == 0 {
        Map::empty()
    } else {
        let had = all_addrs(daemons, keys.drop_last());
        match daemons[keys.last()].status {
            Some(snap) => snapshot_addrs(snap, had),
            None => had,
        }
    }
}

/// Every group any watched daemon still describes.
pub open spec fn announced_table(s: SharedV, now: u64, local: Seq<Net>) -> Map<Seq<char>, GroupV> {
    let keys = ordered(s.daemons.dom());
    all_groups(
        s.daemons,
        keys,
        now,
        s.cfg.poll_interval,
        all_addrs(s.daemons, keys),
        s.cfg.allowed,
        local,
    )
}

/// Whether a time is within three polls.
pub fn within_polls(since: u64, poll: u64) -> (r: bool)
    ensures
        r == (since <= poll * 3),
{
    since as u128 <= poll as u128 * 3
}

fn count_running(actors: &Dict<Json>) -> (r: usize)
    ensures
        r == those(
            ordered(actors@.dom()),
            |k: Seq<char>| actors.deep_view()[k].field("state"@).text() == Some("running"@),
        ).len(),
{
    let n: usize = actors.len();
    let ghost order = actors.order();
    let ghost m = actors.deep_view();
    let mut count: usize = 0;
    let mut i: usize = 0;
    let ghost p = |k: Seq<char>| m[k].field("state"@).text() == Some("running"@);
    proof {
        assert(order.take(0) =~= Seq::<Seq<char>>::empty());
    }
    while i < n
        invariant
            i <= n,
            n == order.len(),
            order == actors.order(),
            m == actors.deep_view(),
            p == (|k: Seq<char>| m[k].field("state"@).text() == Some("running"@)),
            count <= i,
            count == those(order.take(i as int), p).len(),
        decreases n - i,
    {
        let a = actors.val_at(i);
        proof {
            assert(order.take(i + 1).drop_last() =~= order.take(i as int));
            assert(order.take(i + 1).last() == order[i as int]);
            assert(m[order[i as int]] == a.v());
        }
        let running = match a.text_at("state") {
            Some(s) => same(s, "running"),
            None => false,
        };
        if running {
            count += 1;
        }
        i += 1;
    }
    proof {
        assert(order.take(order.len() as int) =~= order);
    }
    count
}

/// What the agents of a group add up to.
struct Ranks {
    alive: usize,
    offers: Vec<(Endpoint, String)>,
    mcp: Option<(bool, Endpoint)>,
}

spec fn opt_mcp(e: Option<(bool, Endpoint)>) -> Option<(bool, EndpointV)> {
    match e {
        Some((b, x)) => Some((b, x@)),
        None => None,
    }
}

fn has_openai(row: &Json) -> (r: bool)
    ensures
        r == (row.v().field("services"@).field("openai"@) != JsonV::Null),
{
    match row.get("services") {
        Some(s) => match s.get("openai") {
            Some(o) => match o {
                Json::Null => false,
                _ => true,
            },
            None => false,
        },
        None => false,
    }
}

fn provider_of(row: &Json) -> (r: String)
    ensures
        r@ == row.v().field("services"@).field("openai"@).field("provider"@).text_or_empty(),
{
    match row.get("services") {
        Some(s) => match s.get("openai") {
            Some(o) => o.text_or_empty_at("provider"),
            None => {
                let none = String::new();
                proof {
                    assert(none@ =~= Seq::<char>::empty());
                }
                none
            },
        },
        None => {
            let none = String::new();
            proof {
                assert(none@ =~= Seq::<char>::empty());
            }
            none
        },
    }
}

fn ranks_of(
    agents: &Dict<Json>,
    nodes: &Dict<Vec<String>>,
    allowed: &Allow,
    local: &Vec<Net>,
) -> (r: Ranks)
    ensures
        r.alive == those(
            ordered(agents@.dom()),
            |k: Seq<char>| live_row(agents.deep_view()[k]),
        ).len(),
        offers(r.offers@) == openai_offers(
            agents.deep_view(),
            ordered(agents@.dom()),
            nodes.deep_view(),
            allowed@,
            local@,
        ),
        opt_mcp(r.mcp) == mcp_offer(
            agents.deep_view(),
            ordered(agents@.dom()),
            nodes.deep_view(),
            allowed@,
            local@,
        ),
{
    let n: usize = agents.len();
    let ghost order = agents.order();
    let ghost m = agents.deep_view();
    let ghost nv = nodes.deep_view();
    let ghost p = |k: Seq<char>| live_row(m[k]);
    let mut alive: usize = 0;
    let mut made: Vec<(Endpoint, String)> = Vec::new();
    let mut mcp: Option<(bool, Endpoint)> = None;
    let mut i: usize = 0;
    proof {
        assert(order.take(0) =~= Seq::<Seq<char>>::empty());
        assert(offers(made@) =~= Seq::<(EndpointV, Seq<char>)>::empty());
    }
    while i < n
        invariant
            i <= n,
            n == order.len(),
            order == agents.order(),
            m == agents.deep_view(),
            nv == nodes.deep_view(),
            p == (|k: Seq<char>| live_row(m[k])),
            alive <= i,
            alive == those(order.take(i as int), p).len(),
            offers(made@) == openai_offers(m, order.take(i as int), nv, allowed@, local@),
            opt_mcp(mcp) == mcp_offer(m, order.take(i as int), nv, allowed@, local@),
        decreases n - i,
    {
        let a = agents.val_at(i);
        proof {
            assert(order.take(i + 1).drop_last() =~= order.take(i as int));
            assert(order.take(i + 1).last() == order[i as int]);
            assert(m[order[i as int]] == a.v());
        }
        if a.true_at("alive") {
            alive += 1;
            if let Some(e) = endpoint_of(a, "openai", nodes, allowed, local) {
                let prov = provider_of(a);
                let ghost was = made@;
                let ghost ev = e@;
                let ghost pv = prov@;
                made.push((e, prov));
                proof {
                    assert(offers(made@) =~= offers(was).push((ev, pv)));
                }
            }
            if let Some(e) = endpoint_of(a, "mcp", nodes, allowed, local) {
                let serves = has_openai(a);
                let keep = match &mcp {
                    Some((b, h)) => !((serves && !*b) || (serves == *b && sorts_first(
                        e.best(),
                        h.best(),
                    ))),
                    None => false,
                };
                if !keep {
                    mcp = Some((serves, e));
                }
            }
        }
        i += 1;
    }
    proof {
        assert(order.take(order.len() as int) =~= order);
    }
    Ranks { alive, offers: made, mcp }
}

fn group_entry(
    name: &str,
    daemon: &str,
    g: &Json,
    nodes: &Dict<Vec<String>>,
    allowed: &Allow,
    local: &Vec<Net>,
) -> (r: GroupEntry)
    ensures
        r.deep_view() == group_of(name@, daemon@, g.v(), nodes.deep_view(), allowed@, local@),
{
    let none: Dict<Json> = Json::object();
    let agents = match g.fields_at("agents") {
        Some(d) => d,
        None => &none,
    };
    let actors = match g.fields_at("actors") {
        Some(d) => d,
        None => &none,
    };
    proof {
        assert(agents.deep_view() == g.v().field("agents"@).fields());
        assert(actors.deep_view() == g.v().field("actors"@).fields());
        assert(agents.deep_view().dom() =~= agents@.dom());
        assert(actors.deep_view().dom() =~= actors@.dom());
    }
    let ranks = ranks_of(agents, nodes, allowed, local);
    let (openai, provider) = best_openai(ranks.offers);
    let mcp = match ranks.mcp {
        Some((_, e)) => Some(e),
        None => None,
    };
    let placed: bool = actors.len() > 0;
    GroupEntry {
        group: name.to_string(),
        daemon: daemon.to_string(),
        agents_alive: ranks.alive,
        running: count_running(actors),
        openai,
        mcp,
        provider,
        placed,
    }
}

fn table_group(out: &mut Dict<GroupEntry>, e: GroupEntry)
    ensures
        final(out).deep_view() == tabled(old(out).deep_view(), e.deep_view()),
{
    let ghost had = out.deep_view();
    let ghost ev = e.deep_view();
    if let Some(prev) = out.get(e.group.as_str()) {
        proof {
            assert(had[e.group@] == prev.deep_view());
        }
        let replace = e.running > prev.running || (e.running == prev.running && (e.agents_alive
            > prev.agents_alive || (e.agents_alive == prev.agents_alive && sorts_before(
            e.daemon.as_str(),
            prev.daemon.as_str(),
        ))));
        if !replace {
            return;
        }
    }
    let name = e.group.clone();
    out.insert(name, e);
    proof {
        assert(out.deep_view() =~= had.insert(ev.group, ev));
    }
}

fn table_daemon(
    out: &mut Dict<GroupEntry>,
    daemon: &str,
    groups: &Dict<Json>,
    nodes: &Dict<Vec<String>>,
    allowed: &Allow,
    local: &Vec<Net>,
)
    ensures
        final(out).deep_view() == daemon_groups(
            old(out).deep_view(),
            daemon@,
            groups.deep_view(),
            ordered(groups@.dom()),
            nodes.deep_view(),
            allowed@,
            local@,
        ),
{
    let n: usize = groups.len();
    let ghost order = groups.order();
    let ghost m = groups.deep_view();
    let ghost start = out.deep_view();
    let mut i: usize = 0;
    proof {
        assert(order.take(0) =~= Seq::<Seq<char>>::empty());
    }
    while i < n
        invariant
            i <= n,
            n == order.len(),
            order == groups.order(),
            m == groups.deep_view(),
            out.deep_view() == daemon_groups(
                start,
                daemon@,
                m,
                order.take(i as int),
                nodes.deep_view(),
                allowed@,
                local@,
            ),
        decreases n - i,
    {
        let g = groups.val_at(i);
        proof {
            assert(order.take(i + 1).drop_last() =~= order.take(i as int));
            assert(order.take(i + 1).last() == order[i as int]);
            assert(m[order[i as int]] == g.v());
        }
        let e = group_entry(groups.key_at(i).as_str(), daemon, g, nodes, allowed, local);
        table_group(out, e);
        i += 1;
    }
    proof {
        assert(order.take(order.len() as int) =~= order);
    }
}

fn known_addrs(sh: &Shared) -> (r: Dict<Vec<String>>)
    ensures
        r.deep_view() == all_addrs(sh@.daemons, ordered(sh@.daemons.dom())),
{
    let mut nodes: Dict<Vec<String>> = Dict::new();
    let n: usize = sh.daemons.len();
    let ghost order = sh.daemons.order();
    let ghost m = sh@.daemons;
    let mut i: usize = 0;
    proof {
        assert(m.dom() =~= sh.daemons@.dom());
        assert(order.take(0) =~= Seq::<Seq<char>>::empty());
        assert(nodes.deep_view() =~= Map::<Seq<char>, Seq<Seq<char>>>::empty());
    }
    while i < n
        invariant
            i <= n,
            n == order.len(),
            order == sh.daemons.order(),
            m == sh@.daemons,
            nodes.deep_view() == all_addrs(m, order.take(i as int)),
        decreases n - i,
    {
        let d = sh.daemons.val_at(i);
        proof {
            assert(order.take(i + 1).drop_last() =~= order.take(i as int));
            assert(order.take(i + 1).last() == order[i as int]);
            assert(m[order[i as int]] == d.deep_view());
        }
        if let Some(snap) = &d.status {
            collect_node_addrs(snap, &mut nodes);
        }
        i += 1;
    }
    proof {
        assert(order.take(order.len() as int) =~= order);
    }
    nodes
}

/// Every group any watched daemon still describes, retired ones included.
///
/// A group's agents all register with one daemon, so overlap only happens
/// around a stale view, and is resolved toward the daemon with more running
/// actors.
pub fn announced_groups(sh: &Shared, now: u64, local: &Vec<Net>) -> (r: Dict<GroupEntry>)
    ensures
        r.deep_view() == announced_table(sh@, now, local@),
{
    let nodes = known_addrs(sh);
    let none: Dict<Json> = Json::object();
    let mut out: Dict<GroupEntry> = Dict::new();
    let n: usize = sh.daemons.len();
    let ghost order = sh.daemons.order();
    let ghost m = sh@.daemons;
    let ghost nv = nodes.deep_view();
    let mut i: usize = 0;
    proof {
        assert(m.dom() =~= sh.daemons@.dom());
        assert(order.take(0) =~= Seq::<Seq<char>>::empty());
        assert(out.deep_view() =~= Map::<Seq<char>, GroupV>::empty());
    }
    while i < n
        invariant
            i <= n,
            n == order.len(),
            order == sh.daemons.order(),
            m == sh@.daemons,
            nv == nodes.deep_view(),
            none.deep_view() == Map::<Seq<char>, JsonV>::empty(),
            out.deep_view() == all_groups(
                m,
                order.take(i as int),
                now,
                sh.cfg.poll_interval,
                nv,
                sh.cfg.allowed_sources@,
                local@,
            ),
        decreases n - i,
    {
        let d = sh.daemons.val_at(i);
        proof {
            assert(order.take(i + 1).drop_last() =~= order.take(i as int));
            assert(order.take(i + 1).last() == order[i as int]);
            assert(m[order[i as int]] == d.deep_view());
        }
        let fresh = match d.seen {
            Some(t) => within_polls(elapsed(now, t), sh.cfg.poll_interval),
            None => false,
        };
        if fresh {
            if let Some(snap) = &d.status {
                let groups = match snap.fields_at("groups") {
                    Some(g) => g,
                    None => &none,
                };
                proof {
                    assert(groups.deep_view() == snap.v().field("groups"@).fields());
                    assert(groups.deep_view().dom() =~= groups@.dom());
                }
                table_daemon(
                    &mut out,
                    sh.daemons.key_at(i).as_str(),
                    groups,
                    &nodes,
                    &sh.cfg.allowed_sources,
                    local,
                );
            }
        }
        i += 1;
    }
    proof {
        assert(order.take(order.len() as int) =~= order);
    }
    out
}

proof fn lemma_daemon_groups_keyed(
    out: Map<Seq<char>, GroupV>,
    daemon: Seq<char>,
    groups: Map<Seq<char>, JsonV>,
    keys: Seq<Seq<char>>,
    nodes: NodeAddrs,
    a: AllowV,
    local: Seq<Net>,
)
    requires
        forall|k: Seq<char>| out.contains_key(k) ==> (#[trigger] out[k]).group == k,
    ensures
        forall|k: Seq<char>|
            daemon_groups(out, daemon, groups, keys, nodes, a, local).contains_key(k) ==> (
            #[trigger] daemon_groups(out, daemon, groups, keys, nodes, a, local)[k]).group == k,
    decreases keys.len(),
{
    if keys.len() > 0 {
        lemma_daemon_groups_keyed(out, daemon, groups, keys.drop_last(), nodes, a, local);
    }
}

proof fn lemma_all_groups_keyed(
    daemons: Map<Seq<char>, DaemonV>,
    keys: Seq<Seq<char>>,
    now: u64,
    poll: u64,
    nodes: NodeAddrs,
    a: AllowV,
    local: Seq<Net>,
)
    ensures
        forall|k: Seq<char>|
            all_groups(daemons, keys, now, poll, nodes, a, local).contains_key(k) ==> (
            #[trigger] all_groups(daemons, keys, now, poll, nodes, a, local)[k]).group == k,
    decreases keys.len(),
{
    if keys.len() > 0 {
        lemma_all_groups_keyed(daemons, keys.drop_last(), now, poll, nodes, a, local);
        let had = all_groups(daemons, keys.drop_last(), now, poll, nodes, a, local);
        let d = daemons[keys.last()];
        if let Some(snap) = d.status {
            let groups = snap.field("groups"@).fields();
            lemma_daemon_groups_keyed(
                had,
                keys.last(),
                groups,
                ordered(groups.dom()),
                nodes,
                a,
                local,
            );
        }
    }
}

/// Each row of the table is that of the group it stands under.
pub proof fn law_the_table_is_by_group(s: SharedV, now: u64, local: Seq<Net>)
    ensures
        forall|k: Seq<char>|
            announced_table(s, now, local).contains_key(k) ==> (#[trigger] announced_table(
                s,
                now,
                local,
            )[k]).group == k,
{
    let keys = ordered(s.daemons.dom());
    lemma_all_groups_keyed(
        s.daemons,
        keys,
        now,
        s.cfg.poll_interval,
        all_addrs(s.daemons, keys),
        s.cfg.allowed,
        local,
    );
}

/// A description of a group outranks no other that outranks it in turn: which
/// one stands in the table does not depend on the order they were read in.
pub proof fn law_one_description_wins(x: GroupV, y: GroupV)
    requires
        x.daemon != y.daemon,
    ensures
        outranks(x, y) != outranks(y, x),
{
    lemma_before_total(x.daemon, y.daemon);
    if before(x.daemon, y.daemon) && before(y.daemon, x.daemon) {
        lemma_before_transitive(x.daemon, y.daemon, x.daemon);
        lemma_before_irreflexive(x.daemon);
    }
}

} // verus!
