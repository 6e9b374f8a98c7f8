//! Which daemons are watched and where, which addresses are allowed, and what an
//! announcement leads to.

use vstd::prelude::*;
use vstd::string::*;

use crate::common::dict::{lemma_finite_lists, lemma_those, ordered, those};
use crate::common::ip::{ip_of, Ip};
use crate::common::json::JsonV;
use crate::common::proto::{compatible, PROTO};
use crate::common::text::{has_prefix, lowered};
use crate::daemon::mesh::strings_of;
use crate::serve::groups::fresh_view;
use crate::serve::listen::router_heard;
use crate::serve::net::{allowed, lies_in, net_of, on_net, permitted, AllowV, Net};
use crate::serve::poll::{failed, forgotten, given_up, peer_read, snapshot_read, AskV, WatcherV};
use crate::serve::route_laws::said;
use crate::serve::shared::SharedV;
use crate::serve::watch::{
    alternates_in_order, asked, claimed, distinct, dropped, host_of,
    host_port, lists_peer, loop_alternate, loops, of_rank, peer_candidates, peer_rank,
    other_than, published, wanted, watch_moved,
};

verus! {

// ---------------------------------------------------------------------------
// What is allowed
// ---------------------------------------------------------------------------
/// Whether an address, read as one, lies in a network: of the same family, and alike in
/// every bit of the mask.
pub open spec fn within_net(addr: Seq<char>, n: Net) -> bool {
    match ip_of(addr) {
        Some(Ip::V4(a)) => !n.v6 && (a as u128) & n.mask == n.net,
        Some(Ip::V6(a)) => n.v6 && a & n.mask == n.net,
        None => false,
    }
}

proof fn lemma_on_net(addr: Seq<char>, nets: Seq<Net>)
    ensures
        on_net(addr, nets) <==> exists|i: int|
            0 <= i < nets.len() && within_net(addr, #[trigger] nets[i]),
{
    if on_net(addr, nets) {
        let ip = ip_of(addr)->0;
        let i = choose|i: int| 0 <= i < nets.len() && lies_in(ip, #[trigger] nets[i]);
        assert(within_net(addr, nets[i]));
    }
    if exists|i: int| 0 <= i < nets.len() && within_net(addr, #[trigger] nets[i]) {
        let i = choose|i: int| 0 <= i < nets.len() && within_net(addr, #[trigger] nets[i]);
        assert(lies_in(ip_of(addr)->0, nets[i]));
    }
}

/// An address is allowed where it starts with one of the texts given, lies in one of the
/// networks given, or lies in one of this box's own where those are allowed; and nowhere
/// else.
pub proof fn law_an_address_is_allowed_three_ways(a: AllowV, addr: Seq<char>, local: Seq<Net>)
    ensures
        permitted(a, addr, local) <==> {
            ||| exists|i: int|
                0 <= i < a.prefixes.len() && (#[trigger] a.prefixes[i]).len() <= addr.len()
                    && addr.take(a.prefixes[i].len() as int) == a.prefixes[i]
            ||| exists|i: int| 0 <= i < a.nets.len() && within_net(addr, #[trigger] a.nets[i])
            ||| a.local && exists|i: int|
                0 <= i < local.len() && within_net(addr, #[trigger] local[i])
        },
{
    lemma_on_net(addr, a.nets);
    lemma_on_net(addr, local);
    if exists|i: int|
        0 <= i < a.prefixes.len() && (#[trigger] a.prefixes[i]).len() <= addr.len() && addr.take(
            a.prefixes[i].len() as int,
        ) == a.prefixes[i] {
        let i = choose|i: int|
            0 <= i < a.prefixes.len() && (#[trigger] a.prefixes[i]).len() <= addr.len()
                && addr.take(a.prefixes[i].len() as int) == a.prefixes[i];
        assert(has_prefix(addr, a.prefixes[i]));
    }
}

/// Whether an entry of an allowlist stands for this box's networks, in any case.
pub open spec fn says_local(e: Seq<char>) -> bool {
    lowered(e) == lowered("local"@)
}

/// An allowlist is read entry by entry: `local` in any case allows this box's networks.
pub proof fn law_an_allowlist_may_allow_local_networks(es: Seq<Seq<char>>)
    ensures
        allowed(es).local <==> exists|i: int| 0 <= i < es.len() && says_local(#[trigger] es[i]),
    decreases es.len(),
{
    if es.len() > 0 {
        let init = es.drop_last();
        law_an_allowlist_may_allow_local_networks(init);
        assert(es[es.len() - 1] == es.last());
        if allowed(init).local {
            let i = choose|i: int| 0 <= i < init.len() && says_local(#[trigger] init[i]);
            assert(es[i] == init[i]);
        }
        if exists|i: int| 0 <= i < es.len() && says_local(#[trigger] es[i]) {
            let i = choose|i: int| 0 <= i < es.len() && says_local(#[trigger] es[i]);
            if i < init.len() {
                assert(init[i] == es[i]);
            }
        }
    }
}

/// A network or an address in an allowlist allows itself, and nothing else adds one.
pub proof fn law_an_allowlist_allows_the_networks_it_names(es: Seq<Seq<char>>, n: Net)
    ensures
        allowed(es).nets.contains(n) <==> exists|i: int|
            0 <= i < es.len() && !says_local(#[trigger] es[i]) && net_of(es[i]) == Some(n),
    decreases es.len(),
{
    if es.len() > 0 {
        let init = es.drop_last();
        let last = es.last();
        law_an_allowlist_allows_the_networks_it_names(init, n);
        assert(es[es.len() - 1] == last);
        let had = allowed(init).nets;
        let all = allowed(es).nets;
        if had.contains(n) {
            let i = choose|i: int|
                0 <= i < init.len() && !says_local(#[trigger] init[i]) && net_of(init[i]) == Some(
                    n,
                );
            assert(es[i] == init[i]);
            assert(all[had.index_of(n)] == n);
        }
        if all.contains(n) && !had.contains(n) {
            let x = all.index_of(n);
            if x < had.len() {
                assert(had[x] == n);
            }
        }
        if exists|i: int|
            0 <= i < es.len() && !says_local(#[trigger] es[i]) && net_of(es[i]) == Some(n) {
            let i = choose|i: int|
                0 <= i < es.len() && !says_local(#[trigger] es[i]) && net_of(es[i]) == Some(n);
            if i < init.len() {
                assert(init[i] == es[i]);
            } else {
                assert(all[had.len() as int] == n);
            }
        }
    }
}

/// What is neither in an allowlist allows the addresses that start with it.
pub proof fn law_an_allowlist_allows_the_starts_it_names(es: Seq<Seq<char>>, p: Seq<char>)
    ensures
        allowed(es).prefixes.contains(p) <==> es.contains(p) && !says_local(p) && net_of(p) is None,
    decreases es.len(),
{
    if es.len() > 0 {
        let init = es.drop_last();
        let last = es.last();
        law_an_allowlist_allows_the_starts_it_names(init, p);
        assert(es[es.len() - 1] == last);
        let had = allowed(init).prefixes;
        let all = allowed(es).prefixes;
        if init.contains(p) {
            assert(es[init.index_of(p)] == p);
        }
        if es.contains(p) && p != last {
            assert(init[es.index_of(p)] == p);
        }
        if had.contains(p) {
            assert(all[had.index_of(p)] == p);
        }
        if all.contains(p) && !had.contains(p) {
            let x = all.index_of(p);
            if x < had.len() {
                assert(had[x] == p);
            }
        }
        if p == last && !says_local(p) && net_of(p) is None {
            assert(all[had.len() as int] == p);
        }
    }
}

// ---------------------------------------------------------------------------
// Addresses of a node
// ---------------------------------------------------------------------------
proof fn lemma_distinct(v: Seq<Seq<char>>, c: Seq<char>)
    ensures
        distinct(v).contains(c) <==> v.contains(c) && c.len() > 0,
    decreases v.len(),
{
    if v.len() > 0 {
        let init = v.drop_last();
        lemma_distinct(init, c);
        let had = distinct(init);
        let d = distinct(v);
        assert(v[v.len() - 1] == v.last());
        if v.contains(c) && c != v.last() {
            assert(init[v.index_of(c)] == c);
        }
        if init.contains(c) {
            assert(v[init.index_of(c)] == c);
        }
        if had.contains(c) {
            assert(d[had.index_of(c)] == c);
        }
        if d.contains(c) {
            let i = d.index_of(c);
            if i < had.len() {
                assert(had[i] == c);
            }
        }
        if c == v.last() && c.len() > 0 && !had.contains(c) {
            assert(d[had.len() as int] == c);
        }
    }
}

/// Whether an address is a box's own.
pub open spec fn own(c: Seq<char>) -> bool {
    (c.len() >= 4 && c.take(4) == "127."@) || c == "::1"@
}

/// A peer is watched at the addresses it is known by: that of the link, those it lists
/// and that of its node. Those on a network of this box come first, then the others, and
/// a box's own last.
pub proof fn law_a_peer_is_watched_at_every_address(p: JsonV, local: Seq<Net>, c: Seq<char>)
    ensures
        ({
            let v = peer_candidates(p, local);
            &&& v.contains(c) <==> c.len() > 0 && (c == said(p.field("link_ip"@)) || strings_of(
                p.field("addrs"@).items(),
            ).contains(c) || c == said(p.field("node_ip"@)))
            &&& forall|i: int, j: int|
                0 <= i < j < v.len() ==> {
                    &&& own(#[trigger] v[i]) ==> own(#[trigger] v[j])
                    &&& !own(v[i]) && !own(v[j]) && on_net(v[j], local) ==> on_net(v[i], local)
                }
        }),
{
    reveal_strlit("127.");
    let link = p.field("link_ip"@).text_or_empty();
    let ip = p.field("node_ip"@).text_or_empty();
    let listed = strings_of(p.field("addrs"@).items());
    let every = seq![link] + listed + seq![ip];
    let all = distinct(every);
    lemma_distinct(every, c);
    if every.contains(c) {
        let i = every.index_of(c);
        if 0 < i <= listed.len() {
            assert(listed[i - 1] == c);
        }
    }
    if listed.contains(c) {
        assert(every[listed.index_of(c) + 1] == c);
    }
    assert(every[0] == link);
    assert(every[every.len() - 1] == ip);
    let p0 = |c: Seq<char>| peer_rank(c, local) == 0;
    let p1 = |c: Seq<char>| peer_rank(c, local) == 1;
    let p2 = |c: Seq<char>| peer_rank(c, local) == 2;
    lemma_of_rank(all, local, 0);
    lemma_of_rank(all, local, 1);
    lemma_of_rank(all, local, 2);
    let (a, b, d) = (of_rank(all, local, 0), of_rank(all, local, 1), of_rank(all, local, 2));
    let v = peer_candidates(p, local);
    if v.contains(c) {
        let i = v.index_of(c);
        if i < a.len() {
            assert(a[i] == c);
            assert(a.contains(c));
        } else if i < a.len() + b.len() {
            assert(b[i - a.len()] == c);
            assert(b.contains(c));
        } else {
            assert(d[i - a.len() - b.len()] == c);
            assert(d.contains(c));
        }
    }
    if all.contains(c) {
        if a.contains(c) {
            assert(v[a.index_of(c)] == c);
        } else if b.contains(c) {
            assert(v[a.len() + b.index_of(c)] == c);
        } else {
            assert(d.contains(c));
            assert(v[a.len() + b.len() + d.index_of(c)] == c);
        }
    }
    assert forall|i: int| 0 <= i < v.len() implies peer_rank(#[trigger] v[i], local) == (if i
        < a.len() {
        0int
    } else if i < a.len() + b.len() {
        1
    } else {
        2
    }) by {
        if i < a.len() {
            assert(v[i] == a[i]);
        } else if i < a.len() + b.len() {
            assert(v[i] == b[i - a.len()]);
        } else {
            assert(v[i] == d[i - a.len() - b.len()]);
        }
    }
    assert forall|x: Seq<char>| #[trigger] loops(x) == own(x) by {}
    assert forall|i: int, j: int| 0 <= i < j < v.len() implies {
        &&& own(#[trigger] v[i]) ==> own(#[trigger] v[j])
        &&& !own(v[i]) && !own(v[j]) && on_net(v[j], local) ==> on_net(v[i], local)
    } by {
        assert(loops(v[i]) == own(v[i]) && loops(v[j]) == own(v[j]));
    }
}

proof fn lemma_of_rank(v: Seq<Seq<char>>, local: Seq<Net>, k: int)
    ensures
        forall|i: int|
            0 <= i < of_rank(v, local, k).len() ==> peer_rank(
                #[trigger] of_rank(v, local, k)[i],
                local,
            ) == k,
        forall|c: Seq<char>| #[trigger]
            of_rank(v, local, k).contains(c) <==> v.contains(c) && peer_rank(c, local) == k,
{
    lemma_those(v, |c: Seq<char>| peer_rank(c, local) == k);
}

// ---------------------------------------------------------------------------
// Watches
// ---------------------------------------------------------------------------
/// Whether a daemon's view is there and was seen within three polls.
pub open spec fn seen_lately(s: SharedV, addr: Seq<char>, now: u64) -> bool {
    s.daemons.contains_key(addr) && s.daemons[addr].seen is Some && now
        <= s.daemons[addr].seen->0 + 3 * s.cfg.poll_interval
}

/// A node is watched at one address. A second that reaches it is kept as an alternate
/// while the first answers; once it does not, the second takes its place, and the first
/// becomes an alternate. No other node's watch changes.
pub proof fn law_a_node_is_watched_where_it_answers(
    s: SharedV,
    id: Seq<char>,
    addr: Seq<char>,
    now: u64,
)
    ensures
        ({
            let t = claimed(s, id, addr, now);
            let had = s.nodes[id];
            let w = t.nodes[id];
            let held = s.nodes.contains_key(id) && had.addr != addr && seen_lately(
                s,
                had.addr,
                now,
            );
            let taken = s.nodes.contains_key(id) && had.addr != addr && !held;
            &&& t.nodes.contains_key(id)
            &&& held ==> w.addr == had.addr && w.alternates == had.alternates.insert(addr)
                && t.daemons == s.daemons && t.watched == s.watched
            &&& !held ==> w.addr == addr
            &&& taken ==> w.alternates.contains(had.addr) && !t.daemons.contains_key(had.addr)
                && !t.watched.contains(had.addr)
            &&& taken ==> (!w.alternates.contains(addr) || addr == had.addr)
            &&& forall|k: Seq<char>|
                k != id ==> (#[trigger] t.nodes.contains_key(k) == s.nodes.contains_key(k))
            &&& forall|k: Seq<char>|
                k != id && s.nodes.contains_key(k) ==> #[trigger] t.nodes[k] == s.nodes[k]
        }),
{
}

/// A daemon is watched anew only at an address that nobody watches and that is no known
/// node's alternate; a watch that ends leaves neither a view nor its address.
pub proof fn law_an_address_is_watched_once(s: SharedV, addr: Seq<char>)
    ensures
        wanted(s, addr) <==> !s.watched.contains(addr) && forall|k: Seq<char>| #[trigger]
            s.nodes.contains_key(k) ==> !s.nodes[k].alternates.contains(addr),
        wanted(s, addr) ==> asked(s, addr).watched == s.watched.insert(addr),
        !wanted(s, addr) ==> asked(s, addr) == s,
        !dropped(s, addr).watched.contains(addr),
        !dropped(s, addr).daemons.contains_key(addr),
        forall|a: Seq<char>|
            a != addr ==> (#[trigger] dropped(s, addr).watched.contains(a) == s.watched.contains(a)),
{
}

/// A watch that moves takes its node to the new address, and keeps the old one among the
/// others to try.
pub proof fn law_a_moved_watch_keeps_its_old_address(
    s: SharedV,
    id: Seq<char>,
    from: Seq<char>,
    to: Seq<char>,
)
    requires
        s.nodes.contains_key(id),
        from != to,
    ensures
        ({
            let t = watch_moved(s, id, from, to);
            &&& t.nodes[id].addr == to
            &&& t.nodes[id].alternates.contains(from)
            &&& !t.nodes[id].alternates.contains(to)
            &&& forall|a: Seq<char>|
                a != from && a != to ==> (#[trigger] t.nodes[id].alternates.contains(a)
                    == s.nodes[id].alternates.contains(a))
            &&& t.watched.contains(to) && !t.watched.contains(from)
            &&& !t.daemons.contains_key(from)
        }),
{
}

/// The other addresses of a node are all tried but the one in use, a box's own last.
pub proof fn law_every_other_address_is_tried(
    s: SharedV,
    id: Seq<char>,
    current: Seq<char>,
    a: Seq<char>,
)
    requires
        s.nodes.contains_key(id),
        s.nodes[id].alternates.finite(),
    ensures
        ({
            let v = alternates_in_order(s, id, current);
            &&& v.contains(a) <==> s.nodes[id].alternates.contains(a) && a != current
            &&& forall|i: int, j: int|
                0 <= i < j < v.len() && loop_alternate(#[trigger] v[i]) ==> loop_alternate(
                    #[trigger] v[j],
                )
        }),
{
    let alts = s.nodes[id].alternates;
    lemma_finite_lists(alts);
    let q = |a: Seq<char>| other_than(a, current);
    let all = those(ordered(alts), q);
    lemma_those(ordered(alts), q);
    assert(ordered(alts).contains(a) == alts.contains(a));
    assert(all.contains(a) <==> ordered(alts).contains(a) && q(a));
    let far = |a: Seq<char>| !loop_alternate(a);
    let near = |a: Seq<char>| loop_alternate(a);
    lemma_those(all, far);
    lemma_those(all, near);
    let x = those(all, far);
    let y = those(all, near);
    let v = alternates_in_order(s, id, current);
    assert(v == x + y);
    if v.contains(a) {
        let i = v.index_of(a);
        if i < x.len() {
            assert(x[i] == a);
            assert(x.contains(a));
        } else {
            assert(y[i - x.len()] == a);
            assert(y.contains(a));
        }
    }
    if all.contains(a) {
        if far(a) {
            assert(x.contains(a));
            assert(v[x.index_of(a)] == a);
        } else {
            assert(near(a));
            assert(y.contains(a));
            assert(v[x.len() + y.index_of(a)] == a);
        }
    }
    assert forall|i: int, j: int|
        0 <= i < j < v.len() && loop_alternate(#[trigger] v[i]) implies loop_alternate(
        #[trigger] v[j],
    ) by {
        if i < x.len() {
            assert(v[i] == x[i]);
            assert(far(x[i]));
        } else {
            assert(v[j] == y[j - x.len()]);
            assert(near(y[j - x.len()]));
        }
    }
}

/// A watch is given up only where it is no seed, has failed for longer than models are
/// kept, and no fresh view lists its node as a live peer. It is then gone altogether.
pub proof fn law_a_watch_is_given_up_when_nobody_lists_it(s: SharedV, w: WatcherV, now: u64)
    ensures
        given_up(s, w, now) <==> {
            &&& !w.seed
            &&& w.failing_since is Some && now > w.failing_since->0 + s.cfg.model_ttl
            &&& forall|d: Seq<char>| #[trigger]
                seen_lately(s, d, now) && s.daemons[d].status is Some ==> !lists_peer(
                    s.daemons[d].status->0,
                    w.node,
                    host_of(w.addr),
                )
        },
        !forgotten(s, w).watched.contains(w.addr),
        !forgotten(s, w).daemons.contains_key(w.addr),
        w.node is Some ==> !forgotten(s, w).nodes.contains_key(w.node->0),
{
    if published(s, w.node, w.addr, now) {
        let d = choose|d: Seq<char>|
            s.daemons.contains_key(d) && fresh_view(
                #[trigger] s.daemons[d],
                now,
                s.cfg.poll_interval,
            ) && s.daemons[d].status is Some && lists_peer(
                s.daemons[d].status->Some_0,
                w.node,
                host_of(w.addr),
            );
        assert(seen_lately(s, d, now));
    }
    if exists|d: Seq<char>| #[trigger]
        seen_lately(s, d, now) && s.daemons[d].status is Some && lists_peer(
            s.daemons[d].status->0,
            w.node,
            host_of(w.addr),
        ) {
        let d = choose|d: Seq<char>| #[trigger]
            seen_lately(s, d, now) && s.daemons[d].status is Some && lists_peer(
                s.daemons[d].status->0,
                w.node,
                host_of(w.addr),
            );
        assert(fresh_view(s.daemons[d], now, s.cfg.poll_interval));
    }
}

/// A watch that fails before its node ever answered goes on to the next address it has
/// not tried, and keeps the one it leaves for later; one whose node has answered stays.
pub proof fn law_a_failing_watch_tries_its_other_addresses(s: SharedV, w: WatcherV, now: u64)
    ensures
        ({
            let (t, v) = failed(s, w, now);
            let moves = w.node is None && w.untried.len() > 0;
            &&& w.failing_since is Some ==> v.failing_since == w.failing_since
            &&& w.failing_since is None ==> v.failing_since == Some(now)
            &&& moves ==> v.addr == w.untried[0] && v.untried == w.untried.skip(1).push(w.addr)
                && t.watched.contains(v.addr)
            &&& moves && w.untried[0] != w.addr ==> !t.watched.contains(w.addr)
            &&& !moves ==> v.addr == w.addr && v.untried == w.untried && t == s
        }),
{
}

/// What a daemon tells is stored as it is told, as seen now, and where it is to discover
/// peers each live peer with a port is asked after.
pub proof fn law_a_snapshot_is_stored_as_told(
    s: SharedV,
    addr: Seq<char>,
    snap: JsonV,
    now: u64,
    local: Seq<Net>,
)
    ensures
        ({
            let (t, asks) = snapshot_read(s, addr, snap, now, local);
            &&& t.daemons.contains_key(addr)
            &&& t.daemons[addr].status == Some(snap)
            &&& t.daemons[addr].seen == Some(now)
            &&& t.daemons[addr].error is None
            &&& !s.cfg.discover_peers ==> asks.len() == 0 && t.nodes == s.nodes && t.watched
                == s.watched
        }),
{
}

/// A peer that a snapshot lists is asked after where it is live, has a port, is not known
/// yet, and has an address that nobody watches: at its best address, with the others.
pub proof fn law_a_listed_peer_is_asked_after(
    s: SharedV,
    asks: Seq<AskV>,
    id: Seq<char>,
    p: JsonV,
    local: Seq<Net>,
)
    ensures
        ({
            let (t, r) = peer_read(s, asks, id, p, local);
            let port = p.field("http_port"@);
            let cands = peer_candidates(p, local);
            let there = p.field("alive"@) == JsonV::Bool(true) && port is Uint && port->Uint_0 > 0;
            let anew = there && !s.nodes.contains_key(id) && cands.len() > 0 && wanted(
                s,
                host_port(cands[0], port->Uint_0),
            );
            &&& !anew ==> r == asks
            &&& anew ==> r.len() == asks.len() + 1 && r.last().addr == host_port(
                cands[0],
                port->Uint_0,
            ) && t.watched.contains(r.last().addr)
            &&& !there ==> t == s
            &&& s.nodes.contains_key(id) ==> t.nodes[id].addr == s.nodes[id].addr
        }),
{
}

// ---------------------------------------------------------------------------
// Announcements
// ---------------------------------------------------------------------------
/// An announcement makes the router act only where it is of a compatible protocol, told
/// within the window, from a node that names itself and its run, new in that run, names
/// its port, and comes from a source that is allowed. Otherwise nothing changes.
pub proof fn law_a_router_acts_on_fresh_news_alone(
    s: SharedV,
    seen: Map<Seq<char>, (Seq<char>, u64)>,
    v: JsonV,
    src: Seq<char>,
    now_s: u64,
    window_s: u64,
    local: Seq<Net>,
)
    ensures
        ({
            let (t, r) = router_heard(s, seen, v, src, now_s, window_s, local);
            let node = said(v.field("node_id"@));
            let boot = said(v.field("boot_id"@));
            let at = v.field("t"@);
            let number = if v.field("seq"@) is Uint {
                v.field("seq"@)->Uint_0
            } else {
                0
            };
            let fresh = {
                &&& compatible(PROTO@, said(v.field("proto"@)))
                &&& at is Uint && at->Uint_0 <= now_s + window_s && now_s <= at->Uint_0 + window_s
                &&& node.len() > 0 && boot.len() > 0
                &&& !(seen.contains_key(node) && seen[node].0 == boot && number <= seen[node].1)
            };
            &&& r is Watch || r is Known ==> fresh && permitted(s.cfg.allowed, src, local)
            &&& !(r is Watch || r is Known) ==> t == s
            &&& r is Watch ==> !s.nodes.contains_key(node) && wanted(s, r->ask.addr)
                && t.watched == s.watched.insert(r->ask.addr)
            &&& r is Known ==> s.nodes.contains_key(node) && t.nodes[node].addr
                == s.nodes[node].addr
            &&& r is WrongProto <==> !compatible(PROTO@, said(v.field("proto"@)))
            &&& fresh && !permitted(s.cfg.allowed, src, local) ==> !(r is Watch) && !(r is Known)
        }),
{
}

} // verus!
