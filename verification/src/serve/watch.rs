//! The daemons the router watches: one watch for each node, over whichever of
//! its addresses replies.

use vstd::prelude::*;
use vstd::string::*;

use crate::common::dict::{lemma_those, lists, ordered, those, Dict};
use crate::common::json::{meaning, Json, JsonV};
use crate::common::text::{
    dec, decimal, has_prefix, listed, opt_text, rsplit_once, same, split_last, starts_with, texts,
};
use crate::daemon::mesh::{str_list_at, strings_of};
use crate::daemon::sweep::elapsed;
use crate::serve::groups::{fresh_view, within_polls};
use crate::serve::net::{on_local_net, on_net, permitted, Allow, AllowV, Net};
use crate::serve::shared::{NodeWatch, Shared, SharedV, WatchV};

verus! {

broadcast use meaning;

// ---------------------------------------------------------------------------
// Lists of addresses
// ---------------------------------------------------------------------------
/// The first of some texts that a condition holds of.
pub open spec fn first_such(v: Seq<Seq<char>>, p: spec_fn(Seq<char>) -> bool) -> Option<Seq<char>>
    decreases v.len(),
{
    if v.len() == 0 {
        None
    } else if p(v[0]) {
        Some(v[0])
    } else {
        first_such(v.skip(1), p)
    }
}

/// The texts that hold something, each once.
pub open spec fn distinct(v: Seq<Seq<char>>) -> Seq<Seq<char>>
    decreases v.len(),
{
    if v.len() == 0 {
        Seq::empty()
    } else {
        let had = distinct(v.drop_last());
        if v.last().len() > 0 && !had.contains(v.last()) {
            had.push(v.last())
        } else {
            had
        }
    }
}

/// Hosts, each with a port.
pub open spec fn with_ports(hosts: Seq<Seq<char>>, port: u64) -> Seq<Seq<char>> {
    hosts.map_values(|h: Seq<char>| host_port(h, port))
}

/// A host with a port.
pub open spec fn host_port(h: Seq<char>, port: u64) -> Seq<char> {
    h + ":"@ + decimal(port as nat)
}

pub(crate) fn at_port(h: &str, port: u64) -> (r: String)
    ensures
        r@ == host_port(h@, port),
{
    let mut s = h.to_string();
    s.append(":");
    s.append(dec(port).as_str());
    s
}

pub(crate) fn at_ports(hosts: &Vec<String>, port: u64) -> (r: Vec<String>)
    ensures
        texts(r@) == with_ports(texts(hosts@), port),
{
    let mut out: Vec<String> = Vec::new();
    let mut i: usize = 0;
    while i < hosts.len()
        invariant
            i <= hosts@.len(),
            out@.len() == i,
            forall|j: int| 0 <= j < i ==> (#[trigger] out@[j])@ == host_port(hosts@[j]@, port),
        decreases hosts@.len() - i,
    {
        out.push(at_port(hosts[i].as_str(), port));
        i += 1;
    }
    proof {
        assert(texts(out@) =~= with_ports(texts(hosts@), port));
    }
    out
}

fn each_once(v: &Vec<String>) -> (r: Vec<String>)
    ensures
        texts(r@) == distinct(texts(v@)),
{
    let ghost all = texts(v@);
    let mut out: Vec<String> = Vec::new();
    let mut i: usize = 0;
    proof {
        assert(texts(out@) =~= Seq::<Seq<char>>::empty());
    }
    while i < v.len()
        invariant
            i <= v@.len(),
            all == texts(v@),
            texts(out@) == distinct(all.take(i as int)),
        decreases v@.len() - i,
    {
        let h = v[i].as_str();
        proof {
            assert(all.take(i + 1).drop_last() =~= all.take(i as int));
            assert(all.take(i + 1).last() == h@);
        }
        if !h.is_empty() && !listed(&out, h) {
            let ghost was = out@;
            out.push(v[i].clone());
            proof {
                assert(texts(out@) =~= texts(was).push(h@));
            }
        }
        i += 1;
    }
    proof {
        assert(all.take(all.len() as int) =~= all);
    }
    out
}

// ---------------------------------------------------------------------------
// Which address of a node
// ---------------------------------------------------------------------------
/// Whether an advertised address may be watched in place of the one an
/// announcement came from.
pub open spec fn claimable(x: Seq<char>, a: AllowV, local: Seq<Net>) -> bool {
    permitted(a, x, local) && on_net(x, local)
}

/// Which address to watch for a node that announced itself: the first that may be
/// watched of those the node ranks above the one the announcement came from.
pub open spec fn announce_pick(
    ranked: Seq<Seq<char>>,
    src: Seq<char>,
    a: AllowV,
    local: Seq<Net>,
) -> Seq<char> {
    match first_such(ranked, |x: Seq<char>| x == src || claimable(x, a, local)) {
        Some(x) => x,
        None => src,
    }
}

/// Which address to watch for a node that just announced itself.
///
/// The source address is proof: it held this datagram here. An advertised
/// address is only a claim, so it wins only when the node ranked it higher and
/// this box is on its subnet, and only after passing the same allowlist. The
/// address the announcement calls its own is not consulted: nothing acts on it.
pub fn announce_address(
    ranked: &Vec<String>,
    src_ip: &str,
    allowed: &Allow,
    local: &Vec<Net>,
) -> (r: String)
    ensures
        r@ == announce_pick(texts(ranked@), src_ip@, allowed@, local@),
{
    let ghost all = texts(ranked@);
    let ghost p = |x: Seq<char>| x == src_ip@ || claimable(x, allowed@, local@);
    let mut i: usize = 0;
    proof {
        assert(all.skip(0) =~= all);
    }
    while i < ranked.len()
        invariant
            i <= ranked@.len(),
            all == texts(ranked@),
            p == (|x: Seq<char>| x == src_ip@ || claimable(x, allowed@, local@)),
            first_such(all, p) == first_such(all.skip(i as int), p),
        decreases ranked@.len() - i,
    {
        let x = ranked[i].as_str();
        proof {
            assert(all.skip(i as int)[0] == x@);
            assert(all.skip(i as int).skip(1) =~= all.skip(i + 1));
        }
        if same(x, src_ip) || (allowed.permits(x, local) && on_local_net(x, local)) {
            return x.to_string();
        }
        i += 1;
    }
    src_ip.to_string()
}

/// What is watched is the address a datagram came from, or one that the
/// allowlist permits on a network this box is on, and that the node does not rank
/// behind the first.
pub proof fn law_a_claimed_address_is_gated(
    ranked: Seq<Seq<char>>,
    src: Seq<char>,
    a: AllowV,
    local: Seq<Net>,
)
    ensures
        ({
            let r = announce_pick(ranked, src, a, local);
            r == src || (permitted(a, r, local) && on_net(r, local) && exists|i: int|
                0 <= i < ranked.len() && #[trigger] ranked[i] == r && !ranked.take(i).contains(src))
        }),
    decreases ranked.len(),
{
    let p = |x: Seq<char>| x == src || claimable(x, a, local);
    if ranked.len() > 0 && !p(ranked[0]) {
        let rest = ranked.skip(1);
        law_a_claimed_address_is_gated(rest, src, a, local);
        let r = announce_pick(rest, src, a, local);
        if r != src {
            let i = choose|i: int|
                0 <= i < rest.len() && #[trigger] rest[i] == r && !rest.take(i).contains(src);
            assert(ranked[i + 1] == r);
            assert(!ranked.take(i + 1).contains(src)) by {
                if ranked.take(i + 1).contains(src) {
                    let k = ranked.take(i + 1).index_of(src);
                    assert(k > 0);
                    assert(rest.take(i)[k - 1] == src);
                }
            }
        }
    } else if ranked.len() > 0 {
        assert(ranked[0] == announce_pick(ranked, src, a, local));
        assert(ranked.take(0) =~= Seq::<Seq<char>>::empty());
    }
}

/// Whether an address is of loopback.
pub open spec fn loops(c: Seq<char>) -> bool {
    has_prefix(c, "127."@) || c == "::1"@
}

/// How an address of a peer ranks: on one of our own networks, elsewhere, or
/// loopback, which is the reporting box rather than the peer.
pub open spec fn peer_rank(c: Seq<char>, local: Seq<Net>) -> int {
    if loops(c) {
        2
    } else if on_net(c, local) {
        0
    } else {
        1
    }
}

/// The addresses of some that rank alike.
pub open spec fn of_rank(v: Seq<Seq<char>>, local: Seq<Net>, k: int) -> Seq<Seq<char>> {
    those(v, |c: Seq<char>| peer_rank(c, local) == k)
}

/// The addresses a daemon reports for a peer, each once, best first: by rank, and
/// within one by evidence. The one that held the link comes first, then those the
/// peer says it listens on, then the one it calls itself.
pub open spec fn peer_candidates(p: JsonV, local: Seq<Net>) -> Seq<Seq<char>> {
    let all = distinct(
        seq![p.field("link_ip"@).text_or_empty()] + strings_of(p.field("addrs"@).items())
            + seq![p.field("node_ip"@).text_or_empty()],
    );
    of_rank(all, local, 0) + of_rank(all, local, 1) + of_rank(all, local, 2)
}

/// The best of a peer's addresses: the first.
pub open spec fn peer_best(cands: Seq<Seq<char>>) -> Option<Seq<char>> {
    if cands.len() > 0 {
        Some(cands[0])
    } else {
        None
    }
}

/// A peer's addresses on our own networks come before those elsewhere, and these
/// before loopback.
pub proof fn law_a_peers_addresses_are_best_first(p: JsonV, local: Seq<Net>, i: int, j: int)
    requires
        0 <= i <= j < peer_candidates(p, local).len(),
    ensures
        peer_rank(peer_candidates(p, local)[i], local) <= peer_rank(
            peer_candidates(p, local)[j],
            local,
        ),
{
    let all = distinct(
        seq![p.field("link_ip"@).text_or_empty()] + strings_of(p.field("addrs"@).items())
            + seq![p.field("node_ip"@).text_or_empty()],
    );
    lemma_those(all, |c: Seq<char>| peer_rank(c, local) == 0);
    lemma_those(all, |c: Seq<char>| peer_rank(c, local) == 1);
    lemma_those(all, |c: Seq<char>| peer_rank(c, local) == 2);
}

fn is_loop(c: &str) -> (r: bool)
    ensures
        r == loops(c@),
{
    starts_with(c, "127.") || same(c, "::1")
}

fn rank_of(c: &str, local: &Vec<Net>) -> (r: u8)
    ensures
        r == peer_rank(c@, local@),
{
    if is_loop(c) {
        2
    } else if on_local_net(c, local) {
        0
    } else {
        1
    }
}

fn add_rank(v: &Vec<String>, local: &Vec<Net>, k: u8, out: &mut Vec<String>)
    ensures
        texts(final(out)@) == texts(old(out)@) + of_rank(texts(v@), local@, k as int),
{
    let ghost start = texts(out@);
    let ghost all = texts(v@);
    let ghost p = |c: Seq<char>| peer_rank(c, local@) == k;
    let mut i: usize = 0;
    proof {
        assert(start + Seq::<Seq<char>>::empty() =~= start);
    }
    while i < v.len()
        invariant
            i <= v@.len(),
            all == texts(v@),
            p == (|c: Seq<char>| peer_rank(c, local@) == k),
            texts(out@) == start + those(all.take(i as int), p),
        decreases v@.len() - i,
    {
        let h = v[i].as_str();
        proof {
            assert(all.take(i + 1).drop_last() =~= all.take(i as int));
            assert(all.take(i + 1).last() == h@);
        }
        if rank_of(h, local) == k {
            let ghost was = texts(out@);
            out.push(v[i].clone());
            proof {
                assert(texts(out@) =~= was.push(h@));
                assert(texts(out@) =~= start + those(all.take(i as int), p).push(h@));
            }
        }
        i += 1;
    }
    proof {
        assert(all.take(all.len() as int) =~= all);
        assert(p =~= (|c: Seq<char>| peer_rank(c, local@) == k as int));
    }
}

/// The best address a daemon reports for a peer, and all of them, best first.
///
/// An address on one of our own networks beats the order of evidence outright:
/// a pair's own identity may be on a subnet this box cannot route to.
pub fn peer_addresses(p: &Json, local: &Vec<Net>) -> (r: (Option<String>, Vec<String>))
    ensures
        texts(r.1@) == peer_candidates(p.v(), local@),
        opt_text(r.0) == peer_best(peer_candidates(p.v(), local@)),
{
    let mut raw: Vec<String> = Vec::new();
    raw.push(p.text_or_empty_at("link_ip"));
    let listed = str_list_at(p, "addrs");
    let ghost head = texts(raw@);
    let mut i: usize = 0;
    proof {
        assert(head =~= seq![p.v().field("link_ip"@).text_or_empty()]);
        assert(head + texts(listed@).take(0) =~= head);
    }
    while i < listed.len()
        invariant
            i <= listed@.len(),
            texts(raw@) == head + texts(listed@).take(i as int),
        decreases listed@.len() - i,
    {
        let ghost was = texts(raw@);
        raw.push(listed[i].clone());
        proof {
            assert(texts(raw@) =~= was.push(listed@[i as int]@));
            assert(texts(raw@) =~= head + texts(listed@).take(i + 1));
        }
        i += 1;
    }
    raw.push(p.text_or_empty_at("node_ip"));
    proof {
        assert(texts(listed@).take(listed@.len() as int) =~= texts(listed@));
        assert(texts(raw@) =~= head + texts(listed@) + seq![
            p.v().field("node_ip"@).text_or_empty(),
        ]);
    }
    let all = each_once(&raw);
    let mut cands: Vec<String> = Vec::new();
    proof {
        assert(texts(cands@) =~= Seq::<Seq<char>>::empty());
    }
    add_rank(&all, local, 0, &mut cands);
    add_rank(&all, local, 1, &mut cands);
    add_rank(&all, local, 2, &mut cands);
    proof {
        assert(texts(cands@) =~= peer_candidates(p.v(), local@));
    }
    let best = if cands.len() > 0 {
        proof {
            assert(texts(cands@)[0] == cands@[0]@);
        }
        Some(cands[0].clone())
    } else {
        None
    };
    (best, cands)
}

// ---------------------------------------------------------------------------
// Watches
// ---------------------------------------------------------------------------
/// Whether an address is another way to reach a node that is watched already.
pub open spec fn remembered(s: SharedV, addr: Seq<char>) -> bool {
    exists|k: Seq<char>|
        s.nodes.contains_key(k) && (#[trigger] s.nodes[k]).alternates.contains(addr)
}

/// Whether an address is to get a watch of its own.
pub open spec fn wanted(s: SharedV, addr: Seq<char>) -> bool {
    !remembered(s, addr) && !s.watched.contains(addr)
}

/// The router after a watch was asked for.
pub open spec fn asked(s: SharedV, addr: Seq<char>) -> SharedV {
    if wanted(s, addr) {
        SharedV { watched: s.watched.insert(addr), ..s }
    } else {
        s
    }
}

fn is_remembered(sh: &Shared, addr: &str) -> (r: bool)
    ensures
        r == remembered(sh@, addr@),
{
    let n: usize = sh.nodes.len();
    let ghost order = sh.nodes.order();
    let mut i: usize = 0;
    while i < n
        invariant
            i <= n,
            n == order.len(),
            order == sh.nodes.order(),
            lists(order, sh.nodes@.dom()),
            forall|j: int|
                0 <= j < i ==> !(#[trigger] sh@.nodes[order[j]]).alternates.contains(addr@),
        decreases n - i,
    {
        let w = sh.nodes.val_at(i);
        proof {
            assert(sh@.nodes[order[i as int]] == w.deep_view());
        }
        if w.alternates.contains(addr) {
            return true;
        }
        i += 1;
    }
    proof {
        assert forall|k: Seq<char>| sh@.nodes.contains_key(k) implies !(
        #[trigger] sh@.nodes[k]).alternates.contains(addr@) by {
            assert(sh.nodes@.dom().contains(k));
            assert(order[order.index_of(k)] == k);
        }
    }
    false
}

/// Asks for a watch of the daemon at `addr`. True where one has to be started:
/// an address that is watched already, or remembered as another way to reach a
/// watched node, needs none of its own.
pub fn ensure_watched(sh: &mut Shared, addr: &str) -> (r: bool)
    ensures
        final(sh)@ == asked(old(sh)@, addr@),
        r == wanted(old(sh)@, addr@),
{
    if is_remembered(sh, addr) {
        return false;
    }
    if sh.watched.contains(addr) {
        return false;
    }
    let ghost had = sh@.watched;
    sh.watched.insert(addr.to_string(), ());
    proof {
        assert(sh@.watched =~= had.insert(addr@));
    }
    true
}

/// The router without the watch of an address.
pub open spec fn dropped(s: SharedV, addr: Seq<char>) -> SharedV {
    SharedV { daemons: s.daemons.remove(addr), watched: s.watched.remove(addr), ..s }
}

/// Drops the watch of an address.
pub fn drop_watch(sh: &mut Shared, addr: &str)
    ensures
        final(sh)@ == dropped(old(sh)@, addr@),
{
    let ghost s0 = sh@;
    sh.daemons.remove(addr);
    sh.watched.remove(addr);
    proof {
        assert(sh@.daemons =~= s0.daemons.remove(addr@));
        assert(sh@.watched =~= s0.watched.remove(addr@));
    }
}

/// Whether the watch of a node was heard recently.
pub open spec fn holder_fresh(s: SharedV, w: WatchV, now: u64) -> bool {
    s.daemons.contains_key(w.addr) && fresh_view(s.daemons[w.addr], now, s.cfg.poll_interval)
}

/// The router after a watch claimed a node that replied to it.
pub open spec fn claimed(s: SharedV, id: Seq<char>, addr: Seq<char>, now: u64) -> SharedV {
    if !s.nodes.contains_key(id) {
        SharedV {
            nodes: s.nodes.insert(id, WatchV { addr, alternates: Set::empty() }),
            ..s
        }
    } else {
        let w = s.nodes[id];
        if w.addr == addr {
            s
        } else if holder_fresh(s, w, now) {
            SharedV {
                nodes: s.nodes.insert(
                    id,
                    WatchV { alternates: w.alternates.insert(addr), ..w },
                ),
                ..s
            }
        } else {
            dropped(
                SharedV {
                    nodes: s.nodes.insert(
                        id,
                        WatchV { addr, alternates: w.alternates.remove(addr).insert(w.addr) },
                    ),
                    ..s
                },
                w.addr,
            )
        }
    }
}

/// Whether a watch gets the node it claims.
pub open spec fn claim_holds(s: SharedV, id: Seq<char>, addr: Seq<char>, now: u64) -> bool {
    !s.nodes.contains_key(id) || s.nodes[id].addr == addr || !holder_fresh(s, s.nodes[id], now)
}

/// Claims a node for the watch of `addr`. False when another fresh watch holds
/// it, in which case this address becomes one of its alternates. A holder that
/// is stale is replaced by the address that replies.
pub fn claim_node(sh: &mut Shared, id: &str, addr: &str, now: u64) -> (r: bool)
    ensures
        final(sh)@ == claimed(old(sh)@, id@, addr@, now),
        r == claim_holds(old(sh)@, id@, addr@, now),
{
    let ghost s0 = sh@;
    let (holder, fresh): (String, bool) = match sh.nodes.get(id) {
        None => {
            sh.nodes.insert(
                id.to_string(),
                NodeWatch { addr: addr.to_string(), alternates: Dict::new() },
            );
            proof {
                assert(sh@.nodes =~= s0.nodes.insert(
                    id@,
                    WatchV { addr: addr@, alternates: Set::empty() },
                )) by {
                    assert(sh@.nodes[id@].alternates =~= Set::<Seq<char>>::empty());
                }
            }
            return true;
        },
        Some(w) => {
            proof {
                assert(s0.nodes[id@] == w.deep_view());
            }
            if same(w.addr.as_str(), addr) {
                return true;
            }
            let fresh = match sh.daemons.get(w.addr.as_str()) {
                Some(v) => {
                    proof {
                        assert(s0.daemons[w.addr@] == v.deep_view());
                    }
                    match v.seen {
                        Some(t) => within_polls(elapsed(now, t), sh.cfg.poll_interval),
                        None => false,
                    }
                },
                None => false,
            };
            (w.addr.clone(), fresh)
        },
    };
    if fresh {
        if let Some(w) = sh.nodes.get_mut(id) {
            let ghost w0 = w.deep_view();
            w.alternates.insert(addr.to_string(), ());
            proof {
                assert(w.deep_view().alternates =~= w0.alternates.insert(addr@));
            }
        }
        proof {
            assert(sh@.nodes =~= claimed(s0, id@, addr@, now).nodes);
        }
        false
    } else {
        if let Some(w) = sh.nodes.get_mut(id) {
            let ghost w0 = w.deep_view();
            w.addr = addr.to_string();
            w.alternates.remove(addr);
            w.alternates.insert(holder.clone(), ());
            proof {
                assert(w.deep_view().alternates =~= w0.alternates.remove(addr@).insert(holder@));
            }
        }
        proof {
            assert(sh@.nodes =~= claimed(s0, id@, addr@, now).nodes);
        }
        drop_watch(sh, holder.as_str());
        true
    }
}

/// After a claim the node has one watch, and the claiming address is either it
/// or one of its alternates: no node is polled twice and no address is lost.
pub proof fn law_a_node_has_one_watch(s: SharedV, id: Seq<char>, addr: Seq<char>, now: u64)
    ensures
        ({
            let t = claimed(s, id, addr, now);
            &&& t.nodes.contains_key(id)
            &&& if claim_holds(s, id, addr, now) {
                t.nodes[id].addr == addr
            } else {
                t.nodes[id].addr == s.nodes[id].addr && t.nodes[id].alternates.contains(addr)
            }
            &&& s.nodes.contains_key(id) && s.nodes[id].addr != addr && claim_holds(
                s,
                id,
                addr,
                now,
            ) ==> t.nodes[id].alternates.contains(s.nodes[id].addr)
        }),
{
}

/// Whether an alternate is of loopback.
pub open spec fn loop_alternate(a: Seq<char>) -> bool {
    has_prefix(a, "127."@) || has_prefix(a, "::1"@)
}

/// Whether an address is not the one in use.
pub open spec fn other_than(a: Seq<char>, current: Seq<char>) -> bool {
    a != current
}

/// The other addresses of a node, in the order they are tried: loopback last,
/// since it is the box the router runs on rather than the peer.
pub open spec fn alternates_in_order(s: SharedV, id: Seq<char>, current: Seq<char>) -> Seq<
    Seq<char>,
> {
    if s.nodes.contains_key(id) {
        let all = those(
            ordered(s.nodes[id].alternates),
            |a: Seq<char>| other_than(a, current),
        );
        those(all, |a: Seq<char>| !loop_alternate(a)) + those(all, |a: Seq<char>| loop_alternate(a))
    } else {
        Seq::empty()
    }
}

fn add_alternates(all: &Vec<String>, looping: bool, out: &mut Vec<String>)
    ensures
        texts(final(out)@) == texts(old(out)@) + (if looping {
            those(texts(all@), |a: Seq<char>| loop_alternate(a))
        } else {
            those(texts(all@), |a: Seq<char>| !loop_alternate(a))
        }),
{
    let ghost start = texts(out@);
    let ghost every = texts(all@);
    let ghost p = if looping {
        |a: Seq<char>| loop_alternate(a)
    } else {
        |a: Seq<char>| !loop_alternate(a)
    };
    let mut i: usize = 0;
    proof {
        assert(start + Seq::<Seq<char>>::empty() =~= start);
    }
    while i < all.len()
        invariant
            i <= all@.len(),
            every == texts(all@),
            forall|c: Seq<char>| #[trigger] p(c) == (loop_alternate(c) == looping),
            texts(out@) == start + those(every.take(i as int), p),
        decreases all@.len() - i,
    {
        let h = all[i].as_str();
        proof {
            assert(every.take(i + 1).drop_last() =~= every.take(i as int));
            assert(every.take(i + 1).last() == h@);
        }
        if (starts_with(h, "127.") || starts_with(h, "::1")) == looping {
            let ghost was = texts(out@);
            out.push(all[i].clone());
            proof {
                assert(texts(out@) =~= was.push(h@));
                assert(texts(out@) =~= start + those(every.take(i as int), p).push(h@));
            }
        }
        i += 1;
    }
    proof {
        assert(every.take(every.len() as int) =~= every);
    }
}

/// The other addresses of a node, in the order they are tried. The first that
/// replies as that node is its new address.
pub fn try_alternates(sh: &Shared, id: &str, current: &str) -> (r: Vec<String>)
    ensures
        texts(r@) == alternates_in_order(sh@, id@, current@),
{
    let mut out: Vec<String> = Vec::new();
    proof {
        assert(texts(out@) =~= Seq::<Seq<char>>::empty());
    }
    let w = match sh.nodes.get(id) {
        Some(w) => w,
        None => return out,
    };
    proof {
        assert(sh@.nodes[id@] == w.deep_view());
    }
    let keys = w.alternates.keys();
    let ghost order = texts(keys@);
    let ghost p = |a: Seq<char>| other_than(a, current@);
    let mut all: Vec<String> = Vec::new();
    let mut i: usize = 0;
    proof {
        assert(texts(all@) =~= Seq::<Seq<char>>::empty());
    }
    while i < keys.len()
        invariant
            i <= keys@.len(),
            order == texts(keys@),
            p == (|a: Seq<char>| other_than(a, current@)),
            texts(all@) == those(order.take(i as int), p),
        decreases keys@.len() - i,
    {
        let h = keys[i].as_str();
        proof {
            assert(order.take(i + 1).drop_last() =~= order.take(i as int));
            assert(order.take(i + 1).last() == h@);
        }
        if !same(h, current) {
            let ghost was = texts(all@);
            all.push(keys[i].clone());
            proof {
                assert(texts(all@) =~= was.push(h@));
            }
        }
        i += 1;
    }
    proof {
        assert(order.take(order.len() as int) =~= order);
    }
    add_alternates(&all, false, &mut out);
    add_alternates(&all, true, &mut out);
    proof {
        assert(texts(out@) =~= alternates_in_order(sh@, id@, current@));
    }
    out
}

/// The router after a node's watch moved to another of its addresses.
pub open spec fn watch_moved(s: SharedV, id: Seq<char>, from: Seq<char>, to: Seq<char>) -> SharedV {
    SharedV {
        nodes: if s.nodes.contains_key(id) {
            s.nodes.insert(
                id,
                WatchV { addr: to, alternates: s.nodes[id].alternates.remove(to).insert(from) },
            )
        } else {
            s.nodes
        },
        daemons: s.daemons.remove(from),
        watched: s.watched.remove(from).insert(to),
        ..s
    }
}

/// Moves a node's watch to another of its addresses. The one it leaves stays an
/// alternate.
pub fn move_watch(sh: &mut Shared, id: &str, from: &str, to: &str)
    ensures
        final(sh)@ == watch_moved(old(sh)@, id@, from@, to@),
{
    let ghost s0 = sh@;
    if let Some(w) = sh.nodes.get_mut(id) {
        let ghost w0 = w.deep_view();
        w.addr = to.to_string();
        w.alternates.remove(to);
        w.alternates.insert(from.to_string(), ());
        proof {
            assert(w.deep_view().alternates =~= w0.alternates.remove(to@).insert(from@));
        }
    }
    sh.daemons.remove(from);
    sh.watched.remove(from);
    sh.watched.insert(to.to_string(), ());
    proof {
        let t = watch_moved(s0, id@, from@, to@);
        assert(sh@.nodes =~= t.nodes);
        assert(sh@.daemons =~= t.daemons);
        assert(sh@.watched =~= t.watched);
    }
}

/// The host of an address.
pub open spec fn host_of(addr: Seq<char>) -> Seq<char> {
    match split_last(addr, ':') {
        Some((h, p)) => h,
        None => addr,
    }
}

/// Whether a peer's row is of a live peer that is this node, or has this host.
pub open spec fn names_peer(id: Seq<char>, p: JsonV, node: Option<Seq<char>>, host: Seq<char>) -> bool {
    p.field("alive"@).is_true() && (node == Some(id) || p.field("node_ip"@).text() == Some(host)
        || p.field("link_ip"@).text() == Some(host) || strings_of(
        p.field("addrs"@).items(),
    ).contains(host))
}

/// Whether a snapshot lists this node or this host as a live peer.
pub open spec fn lists_peer(snap: JsonV, node: Option<Seq<char>>, host: Seq<char>) -> bool {
    exists|id: Seq<char>|
        snap.field("peers"@).fields().contains_key(id) && #[trigger] names_peer(
            id,
            snap.field("peers"@).fields()[id],
            node,
            host,
        )
}

/// Whether any daemon heard recently lists this node, or this address, as a live
/// peer.
pub open spec fn published(s: SharedV, node: Option<Seq<char>>, addr: Seq<char>, now: u64) -> bool {
    exists|d: Seq<char>|
        s.daemons.contains_key(d) && fresh_view(#[trigger] s.daemons[d], now, s.cfg.poll_interval)
            && s.daemons[d].status is Some && lists_peer(
            s.daemons[d].status->Some_0,
            node,
            host_of(addr),
        )
}

fn is_text(j: &Json, key: &str, want: &str) -> (r: bool)
    ensures
        r == (j.v().field(key@).text() == Some(want@)),
{
    match j.text_at(key) {
        Some(s) => same(s, want),
        None => false,
    }
}

fn snapshot_lists(snap: &Json, node: &Option<String>, host: &str) -> (r: bool)
    ensures
        r == lists_peer(snap.v(), opt_text(*node), host@),
{
    let ghost m = snap.v().field("peers"@).fields();
    match snap.fields_at("peers") {
        Some(d) => {
            let n: usize = d.len();
            let ghost order = d.order();
            let mut i: usize = 0;
            while i < n
                invariant
                    i <= n,
                    n == order.len(),
                    order == d.order(),
                    lists(order, d@.dom()),
                    m == d.deep_view(),
                    m == snap.v().field("peers"@).fields(),
                    forall|j: int|
                        0 <= j < i ==> !names_peer(
                            #[trigger] order[j],
                            m[order[j]],
                            opt_text(*node),
                            host@,
                        ),
                decreases n - i,
            {
                let p = d.val_at(i);
                let id = d.key_at(i);
                proof {
                    assert(m[order[i as int]] == p.v());
                }
                let it = match node {
                    Some(x) => same(x.as_str(), id.as_str()),
                    None => false,
                };
                let addrs = str_list_at(p, "addrs");
                if p.true_at("alive") && (it || is_text(p, "node_ip", host) || is_text(
                    p,
                    "link_ip",
                    host,
                ) || listed(&addrs, host)) {
                    proof {
                        assert(names_peer(id@, m[id@], opt_text(*node), host@));
                        assert(m.contains_key(id@));
                    }
                    return true;
                }
                i += 1;
            }
            proof {
                assert forall|id: Seq<char>| m.contains_key(id) implies !names_peer(
                    id,
                    m[id],
                    opt_text(*node),
                    host@,
                ) by {
                    assert(d@.dom().contains(id));
                    assert(order[order.index_of(id)] == id);
                }
            }
            false
        },
        None => false,
    }
}

/// Whether any daemon heard recently lists this node, or this address, as a live
/// peer. Such a daemon is unreachable from here rather than gone.
pub fn published_alive(sh: &Shared, node: &Option<String>, addr: &str, now: u64) -> (r: bool)
    ensures
        r == published(sh@, opt_text(*node), addr@, now),
{
    let host = match rsplit_once(addr, ':') {
        Some((h, _)) => h,
        None => addr,
    };
    let n: usize = sh.daemons.len();
    let ghost order = sh.daemons.order();
    let ghost m = sh@.daemons;
    let mut i: usize = 0;
    while i < n
        invariant
            i <= n,
            n == order.len(),
            order == sh.daemons.order(),
            lists(order, sh.daemons@.dom()),
            m == sh@.daemons,
            host@ == host_of(addr@),
            forall|j: int|
                0 <= j < i ==> !(fresh_view(
                    m[#[trigger] order[j]],
                    now,
                    sh@.cfg.poll_interval,
                ) && m[order[j]].status is Some && lists_peer(
                    m[order[j]].status->Some_0,
                    opt_text(*node),
                    host_of(addr@),
                )),
        decreases n - i,
    {
        let v = sh.daemons.val_at(i);
        proof {
            assert(m[order[i as int]] == v.deep_view());
        }
        let fresh = match v.seen {
            Some(t) => within_polls(elapsed(now, t), sh.cfg.poll_interval),
            None => false,
        };
        if fresh {
            if let Some(snap) = &v.status {
                if snapshot_lists(snap, node, host) {
                    proof {
                        assert(m.contains_key(order[i as int]));
                    }
                    return true;
                }
            }
        }
        i += 1;
    }
    proof {
        assert forall|d: Seq<char>|
            m.contains_key(d) implies !(fresh_view(#[trigger] m[d], now, sh@.cfg.poll_interval)
            && m[d].status is Some && lists_peer(
            m[d].status->Some_0,
            opt_text(*node),
            host_of(addr@),
        )) by {
            assert(sh.daemons@.dom().contains(d));
            assert(order[order.index_of(d)] == d);
        }
    }
    false
}

} // verus!
