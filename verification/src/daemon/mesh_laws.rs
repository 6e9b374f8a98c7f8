//! Who is in the mesh, which links are kept, who is dialled, and who is head.

use vstd::prelude::*;
use vstd::string::*;
use vstd::utf8::*;

use crate::common::dict::{lemma_finite_lists, lemma_those, ordered, those};
use crate::common::json::JsonV;
use crate::common::text::{
    before, decimal, lemma_before_asymmetric, lemma_before_irreflexive, lemma_before_total, lex,
    split_last, texts,
};
use crate::daemon::election::{
    claimed_head, election_tick, head_choice, is_candidate, lives, some_head, stands,
};
use crate::daemon::mesh::{
    aged_peers, covers, dial_list, fell_silent, forgettable, ghost_of, heard, link_refused, linked,
    more_targets, overlap, peer_link_closed, peers_swept, published_control, snapshot_publishes,
    status_pushed, still_published, superseded, targets_in, targets_of, told_left, PeerIdent,
};
use crate::daemon::peering::{links_of, reply_error, ProbeReply};
use crate::daemon::probes::{probe_list, probe_told, round_done, Probed};
use crate::daemon::state::{loopback, PairV, PeerV, StateV};
use crate::daemon::sweep::since;
use crate::daemon::sweep_laws::lemma_listed;

verus! {

// ---------------------------------------------------------------------------
// Order
// ---------------------------------------------------------------------------
/// Byte strings sort as in a dictionary: by the first byte in which they differ, and a
/// start before what it is the start of.
pub proof fn law_bytes_sort_as_in_a_dictionary(a: Seq<u8>, b: Seq<u8>)
    ensures
        lex(a, b) <==> exists|i: int|
            {
                &&& 0 <= i <= a.len()
                &&& i < b.len()
                &&& #[trigger] a.take(i) == b.take(i)
                &&& i == a.len() || a[i] < b[i]
            },
    decreases a.len(),
{
    if b.len() > 0 && a.len() == 0 {
        assert(a.take(0) =~= b.take(0));
    } else if b.len() > 0 && a[0] < b[0] {
        assert(a.take(0) =~= b.take(0));
    } else if b.len() > 0 && a[0] == b[0] {
        let (x, y) = (a.drop_first(), b.drop_first());
        law_bytes_sort_as_in_a_dictionary(x, y);
        if lex(a, b) {
            let i = choose|i: int|
                {
                    &&& 0 <= i <= x.len()
                    &&& i < y.len()
                    &&& #[trigger] x.take(i) == y.take(i)
                    &&& i == x.len() || x[i] < y[i]
                };
            assert(a.take(i + 1) =~= seq![a[0]] + x.take(i));
            assert(b.take(i + 1) =~= seq![b[0]] + y.take(i));
            assert(a.take(i + 1) == b.take(i + 1));
        }
        if exists|i: int|
            {
                &&& 0 <= i <= a.len()
                &&& i < b.len()
                &&& #[trigger] a.take(i) == b.take(i)
                &&& i == a.len() || a[i] < b[i]
            } {
            let i = choose|i: int|
                {
                    &&& 0 <= i <= a.len()
                    &&& i < b.len()
                    &&& #[trigger] a.take(i) == b.take(i)
                    &&& i == a.len() || a[i] < b[i]
                };
            assert(i > 0);
            assert(x.take(i - 1) =~= a.take(i).drop_first());
            assert(y.take(i - 1) =~= b.take(i).drop_first());
            assert(x.take(i - 1) == y.take(i - 1));
        }
    } else if b.len() > 0 {
        assert forall|i: int| 0 <= i <= a.len() && i < b.len() && #[trigger] a.take(i) == b.take(
            i,
        ) implies !(i == a.len() || a[i] < b[i]) by {
            if i > 0 {
                assert(a.take(i)[0] == a[0] && b.take(i)[0] == b[0]);
            }
        }
    }
}

/// Texts sort by the bytes of their UTF-8.
pub proof fn law_texts_sort_by_their_bytes(a: Seq<char>, b: Seq<char>)
    ensures
        before(a, b) <==> exists|i: int|
            {
                &&& 0 <= i <= encode_utf8(a).len()
                &&& i < encode_utf8(b).len()
                &&& #[trigger] encode_utf8(a).take(i) == encode_utf8(b).take(i)
                &&& i == encode_utf8(a).len() || encode_utf8(a)[i] < encode_utf8(b)[i]
            },
{
    law_bytes_sort_as_in_a_dictionary(encode_utf8(a), encode_utf8(b));
}

// ---------------------------------------------------------------------------
// The head
// ---------------------------------------------------------------------------
/// Whether a node is up, as far as a daemon knows: itself, or a live peer.
pub open spec fn up(s: StateV, h: Seq<char>) -> bool {
    h == s.node_id || (s.peers.contains_key(h) && s.peers[h].alive)
}

/// Whether a node that is up is head already: as this daemon has it, or as a live peer
/// publishes.
pub open spec fn in_office(s: StateV, h: Seq<char>) -> bool {
    &&& h.len() > 0
    &&& up(s, h)
    &&& s.head_node_id == h || exists|k: Seq<char>| #[trigger]
        s.peers.contains_key(k) && s.peers[k].alive && s.peers[k].last_status.field(
            "head_node_id"@,
        ) == JsonV::Str(h)
}

proof fn lemma_in_office(s: StateV, h: Seq<char>)
    ensures
        claimed_head(s, h) == in_office(s, h),
{
    if claimed_head(s, h) && s.head_node_id != h {
        let k = choose|k: Seq<char>| #[trigger]
            s.peers.contains_key(k) && s.peers[k].alive && s.peers[k].last_status.field(
                "head_node_id"@,
            ).text_or_empty() == h;
        assert(s.peers[k].last_status.field("head_node_id"@) == JsonV::Str(h));
    }
    if in_office(s, h) && s.head_node_id != h {
        let k = choose|k: Seq<char>| #[trigger]
            s.peers.contains_key(k) && s.peers[k].alive && s.peers[k].last_status.field(
                "head_node_id"@,
            ) == JsonV::Str(h);
        assert(s.peers[k].last_status.field("head_node_id"@).text_or_empty() == h);
    }
}

proof fn lemma_there_is_a_candidate(s: StateV)
    requires
        s.peers.dom().finite(),
    ensures
        is_candidate(s, head_choice(s)),
{
    let all = s.peers.dom().insert(s.node_id);
    let dom = all.filter(|h: Seq<char>| stands(s, h));
    assert(dom.finite());
    assert forall|h: Seq<char>| stands(s, h) implies #[trigger] dom.contains(h) by {
        if h != s.node_id {
            assert(s.peers.contains_key(h));
            assert(s.peers.dom().contains(h));
        }
    }
    if some_head(s) {
        let h = choose|h: Seq<char>| #[trigger] claimed_head(s, h);
        assert(stands(s, h));
        assert(dom.contains(h));
    } else {
        assert(stands(s, s.node_id));
        assert(dom.contains(s.node_id));
    }
    lemma_finite_lists(dom);
    let v = ordered(dom);
    let one = choose|h: Seq<char>| dom.contains(h);
    assert(v.contains(one));
    let low = v[0];
    assert(v.contains(low));
    assert forall|o: Seq<char>| #[trigger] stands(s, o) implies !before(o, low) by {
        assert(dom.contains(o));
        assert(v.contains(o));
        let i = v.index_of(o);
        lemma_before_irreflexive(low);
        if i > 0 {
            assert(before(v[0], v[i]));
            if before(o, low) {
                lemma_before_asymmetric(o, low);
            }
        }
    }
    assert(dom.contains(low));
    assert(is_candidate(s, low));
}

/// The head to follow is up. It is the lowest of those in office, where any is; and where
/// none is, the lowest of those that are up.
pub proof fn law_the_head_is_the_lowest(s: StateV, o: Seq<char>)
    requires
        s.peers.dom().finite(),
    ensures
        ({
            let h = head_choice(s);
            &&& up(s, h)
            &&& in_office(s, o) ==> in_office(s, h) && (o == h || before(h, o))
            &&& up(s, o) && !in_office(s, h) ==> o == h || before(h, o)
        }),
{
    lemma_there_is_a_candidate(s);
    let h = head_choice(s);
    lemma_in_office(s, o);
    lemma_in_office(s, h);
    lemma_before_total(h, o);
    if in_office(s, o) {
        assert(claimed_head(s, o));
        assert(some_head(s));
        assert(stands(s, o));
    }
    if up(s, o) && !in_office(s, h) {
        assert(lives(s, o));
        assert(!some_head(s));
        assert(stands(s, o));
    }
}

/// A daemon changes its head only to the one it should follow, and only once that one
/// has been so for as long as the hold-down; a candidate that changes starts it anew. The
/// generation goes up by one with each change.
pub proof fn law_a_head_changes_after_the_hold_down(
    s: StateV,
    held: Option<(Seq<char>, u64)>,
    now: u64,
    hold_down_ms: u64,
)
    ensures
        ({
            let c = head_choice(s);
            let (t, w) = election_tick(s, held, now, hold_down_ms);
            let ripe = held is Some && (held->0).0 == c && now >= (held->0).1 && now - (held->0).1
                >= hold_down_ms;
            &&& c == s.head_node_id ==> t == s && w is None
            &&& c != s.head_node_id && ripe ==> {
                &&& t.head_node_id == c
                &&& w is None
                &&& s.head_generation < u64::MAX ==> t.head_generation == s.head_generation + 1
            }
            &&& c != s.head_node_id && !ripe && hold_down_ms > 0 ==> {
                &&& t == s
                &&& w is Some && (w->0).0 == c
                &&& held is Some && (held->0).0 == c ==> w == held
                &&& !(held is Some && (held->0).0 == c) ==> (w->0).1 == now
            }
        }),
{
}

// ---------------------------------------------------------------------------
// Links
// ---------------------------------------------------------------------------
/// A second link to a live peer is kept only where the node that dialled it comes before
/// the one that dialled the first; a link to a peer that is not live always is.
pub proof fn law_the_lower_dialers_link_is_kept(s: StateV, id: Seq<char>, outbound: bool)
    ensures
        ({
            let p = s.peers[id];
            let mine = |out: bool|
                if out {
                    s.node_id
                } else {
                    id
                };
            link_refused(s, id, outbound) <==> s.peers.contains_key(id) && p.alive && !before(
                mine(outbound),
                mine(p.outbound),
            )
        }),
{
}

/// Whether two lists have an address in common that is not a box's own.
pub open spec fn share_an_address(a: Seq<Seq<char>>, b: Seq<Seq<char>>) -> bool {
    exists|x: Seq<char>| #[trigger]
        a.contains(x) && b.contains(x) && !(x.len() >= 4 && x.take(4) == "127."@) && x != "::1"@
}

proof fn lemma_share(a: Seq<Seq<char>>, b: Seq<Seq<char>>)
    ensures
        overlap(a, b) == share_an_address(a, b),
{
    reveal_strlit("127.");
    if overlap(a, b) {
        let i = choose|i: int|
            0 <= i < a.len() && !loopback(#[trigger] a[i]) && b.contains(
                a[i],
            );
        assert(a.contains(a[i]));
    }
    if share_an_address(a, b) {
        let x = choose|x: Seq<char>| #[trigger]
            a.contains(x) && b.contains(x) && !(x.len() >= 4 && x.take(4) == "127."@) && x
                != "::1"@;
        let i = a.index_of(x);
        assert(!loopback(a[i]));
    }
}

proof fn lemma_superseded(s: StateV, id: Seq<char>, addrs: Seq<Seq<char>>, x: Seq<char>)
    requires
        s.peers.dom().finite(),
    ensures
        superseded(s, id, addrs).contains(x) <==> s.peers.contains_key(x) && !s.peers[x].alive && x
            != id && overlap(addrs, s.peers[x].addrs),
{
    lemma_listed(s.peers, |k: Seq<char>| ghost_of(s, id, addrs, k));
}

/// A link that is kept makes its peer live and fresh, with what it said of itself, and
/// with what was known of its probes and its snapshot. Dead entries of the same box, with
/// which it shares an address, are dropped; nobody else is.
pub proof fn law_a_link_makes_its_peer_live(
    s: StateV,
    p: PeerIdent,
    link: u64,
    now: u64,
    k: Seq<char>,
)
    requires
        s.peers.dom().finite(),
    ensures
        ({
            let t = linked(s, p, link, now);
            let id = p.node_id@;
            let r = t.peers[id];
            let ghostly = s.peers.contains_key(k) && !s.peers[k].alive && share_an_address(
                texts(p.addrs@),
                s.peers[k].addrs,
            );
            &&& t.peers.contains_key(id)
            &&& r.alive && !r.stale && r.last_seen_ms == now && r.link == link
            &&& r.node_id == id && r.node_ip == p.node_ip@ && r.addrs == texts(p.addrs@)
            &&& r.control_port == p.control_port && r.http_port == p.http_port && r.outbound
                == p.outbound
            &&& s.peers.contains_key(id) ==> r.probe_pairs == s.peers[id].probe_pairs
                && r.last_status == s.peers[id].last_status
            &&& !s.peers.contains_key(id) ==> r.probe_pairs == Map::<
                Seq<char>,
                Map<Seq<char>, PairV>,
            >::empty() && r.last_status is Null
            &&& k != id ==> (t.peers.contains_key(k) <==> s.peers.contains_key(k) && !ghostly)
            &&& k != id && t.peers.contains_key(k) ==> t.peers[k] == s.peers[k]
        }),
{
    let id = p.node_id@;
    let addrs = texts(p.addrs@);
    let gone = superseded(s, id, addrs);
    lemma_superseded(s, id, addrs, k);
    assert(gone.to_set().contains(k) == gone.contains(k));
    lemma_share(addrs, s.peers[k].addrs);
}

/// A snapshot that a peer pushes is stored as it is, and the peer is heard and fresh. A
/// pong says that it is heard. A closed link takes the peer down where it is the one in
/// use. No other peer changes.
pub proof fn law_a_peer_is_heard(
    s: StateV,
    id: Seq<char>,
    data: JsonV,
    link: u64,
    now: u64,
)
    requires
        s.peers.contains_key(id),
    ensures
        ({
            let a = status_pushed(s, id, data, now).peers[id];
            let b = heard(s, id, now).peers[id];
            let c = peer_link_closed(s, id, link, now).peers[id];
            let p = s.peers[id];
            &&& a.last_status == data && a.last_seen_ms == now && !a.stale && a.alive == p.alive
                && a.link == p.link && a.probe_pairs == p.probe_pairs
            &&& b.last_seen_ms == now && b.alive == p.alive && b.last_status == p.last_status
                && b.link == p.link
            &&& p.alive && p.link == link ==> !c.alive && c.dead_since_ms == now
            &&& !(p.alive && p.link == link) ==> c == p
        }),
        forall|k: Seq<char>|
            k != id && s.peers.contains_key(k) ==> #[trigger] status_pushed(
                s,
                id,
                data,
                now,
            ).peers[k] == s.peers[k],
        forall|k: Seq<char>|
            k != id && s.peers.contains_key(k) ==> #[trigger] peer_link_closed(
                s,
                id,
                link,
                now,
            ).peers[k] == s.peers[k],
{
}

proof fn lemma_told_left(s: StateV, ids: Seq<Seq<char>>)
    ensures
        told_left(s, ids).peers == s.peers,
    decreases ids.len(),
{
    if ids.len() > 0 {
        lemma_told_left(s, ids.drop_last());
    }
}

/// A live peer that was silent for the shorter limit is stale, and for the longer one is
/// dead from then on; one that has been dead for longer than is kept is forgotten. Any
/// other peer is left as it is.
pub proof fn law_silent_peers_go_stale_then_dead_then_forgotten(
    s: StateV,
    now: u64,
    stale_after: u64,
    dead_after: u64,
    keep: u64,
    k: Seq<char>,
)
    requires
        s.peers.dom().finite(),
        s.peers.contains_key(k),
    ensures
        ({
            let p = s.peers[k];
            let t = peers_swept(s, now, stale_after, dead_after, keep);
            let q = t.peers[k];
            let silent = if now > p.last_seen_ms {
                now - p.last_seen_ms
            } else {
                0
            };
            let gone = !p.alive && now > p.dead_since_ms + keep;
            &&& t.peers.contains_key(k) <==> !gone
            &&& p.alive && silent >= dead_after ==> !q.alive && q.dead_since_ms == now
            &&& p.alive && silent < dead_after && silent >= stale_after ==> q.alive && q.stale
            &&& p.alive && silent < dead_after && silent < stale_after ==> q == p
            &&& !p.alive && !gone ==> q == p
            &&& !gone ==> q.last_status == p.last_status && q.probe_pairs == p.probe_pairs
                && q.addrs == p.addrs
        }),
{
    let t = StateV {
        peers: aged_peers(s.peers, now, stale_after, dead_after),
        ..s
    };
    let silent = those(
        ordered(s.peers.dom()),
        |k: Seq<char>| fell_silent(s.peers[k], now, dead_after),
    );
    lemma_told_left(t, silent);
    let u = told_left(t, silent);
    assert(u.peers.dom() =~= s.peers.dom());
    lemma_finite_lists(u.peers.dom());
    let f = |k: Seq<char>|
        !u.peers[k].alive && since(now, u.peers[k].dead_since_ms) > keep;
    lemma_those(ordered(u.peers.dom()), f);
    let ids = forgettable(u, now, keep);
    assert(ordered(u.peers.dom()).contains(k) == u.peers.dom().contains(k));
    assert(ids.contains(k) <==> u.peers.contains_key(k) && f(k));
    assert(ids.to_set().contains(k) == ids.contains(k));
    if ids.len() == 0 {
        assert(!ids.contains(k));
    }
}

// ---------------------------------------------------------------------------
// Dialling
// ---------------------------------------------------------------------------
/// The control address that a row of a snapshot publishes: the one it says, or its
/// node's address and control port.
pub open spec fn publishes(q: JsonV, addr: Seq<char>) -> bool {
    let said = q.field("control_addr"@);
    let ip = q.field("node_ip"@);
    let port = q.field("control_port"@);
    if said is Str && said->Str_0.len() > 0 {
        addr == said->Str_0
    } else {
        &&& ip is Str && ip->Str_0.len() > 0
        &&& port is Uint && port->Uint_0 > 0
        &&& addr == ip->Str_0 + ":"@ + decimal(port->Uint_0 as nat)
    }
}

/// Whether a live peer tells of a live node that this daemon has no link to, at an
/// address.
pub open spec fn tells_of(s: StateV, k: Seq<char>, id: Seq<char>, addr: Seq<char>) -> bool {
    let peers = s.peers[k].last_status.field("peers"@);
    &&& s.peers.contains_key(k)
    &&& s.peers[k].alive
    &&& peers.has(id)
    &&& id != s.node_id
    &&& !(s.peers.contains_key(id) && s.peers[id].alive)
    &&& peers.field(id).field("alive"@) == JsonV::Bool(true)
    &&& publishes(peers.field(id), addr)
}

proof fn lemma_publishes(q: JsonV, addr: Seq<char>)
    ensures
        published_control(q) == Some(addr) <==> publishes(q, addr),
{
}

proof fn lemma_targets_in(s: StateV, m: Map<Seq<char>, JsonV>, keys: Seq<Seq<char>>, addr: Seq<char>)
    ensures
        targets_in(s, m, keys).contains(addr) <==> exists|i: int|
            0 <= i < keys.len() && {
                let id = #[trigger] keys[i];
                &&& id != s.node_id
                &&& !(s.peers.contains_key(id) && s.peers[id].alive)
                &&& m[id].field("alive"@) == JsonV::Bool(true)
                &&& publishes(m[id], addr)
            },
    decreases keys.len(),
{
    let r = targets_in(s, m, keys);
    if keys.len() > 0 {
        let init = keys.drop_last();
        let last = keys.last();
        assert(keys[keys.len() - 1] == last);
        lemma_targets_in(s, m, init, addr);
        lemma_publishes(m[last], addr);
        let had = targets_in(s, m, init);
        if r.contains(addr) {
            let i = r.index_of(addr);
            if i < had.len() {
                assert(had[i] == addr);
                assert(had.contains(addr));
                let j = choose|j: int|
                    0 <= j < init.len() && {
                        let id = #[trigger] init[j];
                        &&& id != s.node_id
                        &&& !(s.peers.contains_key(id) && s.peers[id].alive)
                        &&& m[id].field("alive"@) == JsonV::Bool(true)
                        &&& publishes(m[id], addr)
                    };
                assert(keys[j] == init[j]);
            }
        }
        if exists|i: int|
            0 <= i < keys.len() && {
                let id = #[trigger] keys[i];
                &&& id != s.node_id
                &&& !(s.peers.contains_key(id) && s.peers[id].alive)
                &&& m[id].field("alive"@) == JsonV::Bool(true)
                &&& publishes(m[id], addr)
            } {
            let i = choose|i: int|
                0 <= i < keys.len() && {
                    let id = #[trigger] keys[i];
                    &&& id != s.node_id
                    &&& !(s.peers.contains_key(id) && s.peers[id].alive)
                    &&& m[id].field("alive"@) == JsonV::Bool(true)
                    &&& publishes(m[id], addr)
                };
            if i < init.len() {
                assert(init[i] == keys[i]);
                assert(had.contains(addr));
                assert(r[had.index_of(addr)] == addr);
            } else {
                assert(r[had.len() as int] == addr);
            }
        }
    }
}

proof fn lemma_targets_of(s: StateV, keys: Seq<Seq<char>>, addr: Seq<char>)
    requires
        forall|i: int| 0 <= i < keys.len() ==> s.peers.contains_key(#[trigger] keys[i]),
        forall|k: Seq<char>|
            s.peers.contains_key(k) ==> (
            #[trigger] s.peers[k]).last_status.field("peers"@).fields().dom().finite(),
    ensures
        targets_of(s, keys).contains(addr) <==> exists|i: int, id: Seq<char>|
            0 <= i < keys.len() && #[trigger] tells_of(s, keys[i], id, addr),
    decreases keys.len(),
{
    let r = targets_of(s, keys);
    if keys.len() > 0 {
        let init = keys.drop_last();
        let last = keys.last();
        assert(keys[keys.len() - 1] == last);
        assert forall|i: int| 0 <= i < init.len() implies s.peers.contains_key(
            #[trigger] init[i],
        ) by {
            assert(init[i] == keys[i]);
        }
        lemma_targets_of(s, init, addr);
        let had = targets_of(s, init);
        let doc = s.peers[last].last_status.field("peers"@);
        let m = doc.fields();
        let ids = ordered(m.dom());
        assert(s.peers.contains_key(last));
        lemma_finite_lists(m.dom());
        lemma_targets_in(s, m, ids, addr);
        let mine = targets_in(s, m, ids);
        if r.contains(addr) {
            let x = r.index_of(addr);
            if x < had.len() {
                assert(had[x] == addr);
                assert(had.contains(addr));
                let (i, id) = choose|i: int, id: Seq<char>|
                    0 <= i < init.len() && #[trigger] tells_of(s, init[i], id, addr);
                assert(tells_of(s, keys[i], id, addr));
            } else {
                assert(mine[x - had.len()] == addr);
                assert(mine.contains(addr));
                let j = choose|j: int|
                    0 <= j < ids.len() && {
                        let id = #[trigger] ids[j];
                        &&& id != s.node_id
                        &&& !(s.peers.contains_key(id) && s.peers[id].alive)
                        &&& m[id].field("alive"@) == JsonV::Bool(true)
                        &&& publishes(m[id], addr)
                    };
                assert(ids.contains(ids[j]));
                assert(m.dom().contains(ids[j]));
                assert(tells_of(s, keys[keys.len() - 1], ids[j], addr));
            }
        }
        if exists|i: int, id: Seq<char>|
            0 <= i < keys.len() && #[trigger] tells_of(s, keys[i], id, addr) {
            let (i, id) = choose|i: int, id: Seq<char>|
                0 <= i < keys.len() && #[trigger] tells_of(s, keys[i], id, addr);
            if i < init.len() {
                assert(tells_of(s, init[i], id, addr));
                assert(had.contains(addr));
                assert(r[had.index_of(addr)] == addr);
            } else {
                assert(m.dom().contains(id));
                assert(ids.contains(id));
                assert(ids[ids.index_of(id)] == id);
                assert(mine.contains(addr));
                assert(r[had.len() + mine.index_of(addr)] == addr);
            }
        }
    }
}

/// A daemon dials every node that a live peer tells of as live and that it has no link
/// to, at the address the peer publishes, and nobody else. So one seed joins the mesh.
pub proof fn law_every_node_told_of_is_dialled(s: StateV, addr: Seq<char>)
    requires
        s.peers.dom().finite(),
        forall|k: Seq<char>|
            s.peers.contains_key(k) ==> (
            #[trigger] s.peers[k]).last_status.field("peers"@).fields().dom().finite(),
    ensures
        targets_of(s, ordered(s.peers.dom())).contains(addr) <==> exists|
            k: Seq<char>,
            id: Seq<char>,
        | #[trigger] tells_of(s, k, id, addr),
{
    let keys = ordered(s.peers.dom());
    lemma_finite_lists(s.peers.dom());
    assert forall|i: int| 0 <= i < keys.len() implies s.peers.contains_key(#[trigger] keys[i]) by {
        assert(keys.contains(keys[i]));
        assert(s.peers.dom().contains(keys[i]));
    }
    lemma_targets_of(s, keys, addr);
    if exists|k: Seq<char>, id: Seq<char>| #[trigger] tells_of(s, k, id, addr) {
        let (k, id) = choose|k: Seq<char>, id: Seq<char>| #[trigger] tells_of(s, k, id, addr);
        assert(s.peers.dom().contains(k));
        assert(keys.contains(k));
        assert(tells_of(s, keys[keys.index_of(k)], id, addr));
    }
}

/// A seed is covered where its node has a live link: the node it is known to be, or else
/// a live peer whose control address it is. A target is still published where a live
/// peer's snapshot has a row with that control address.
pub proof fn law_a_seed_is_covered_by_a_live_link(
    s: StateV,
    seed: Seq<char>,
    known: Option<Seq<char>>,
)
    ensures
        known is Some ==> (covers(s, seed, known) <==> s.peers.contains_key(known->0)
            && s.peers[known->0].alive),
        known is None ==> (covers(s, seed, known) <==> exists|k: Seq<char>| #[trigger]
            s.peers.contains_key(k) && s.peers[k].alive && s.peers[k].node_ip + ":"@ + decimal(
                s.peers[k].control_port as nat,
            ) == seed),
        still_published(s, seed) <==> exists|k: Seq<char>, id: Seq<char>|
            #![trigger s.peers.contains_key(k), s.peers[k].last_status.field("peers"@).has(id)]
            s.peers.contains_key(k) && s.peers[k].alive && s.peers[k].last_status.field(
                "peers"@,
            ).has(id) && publishes(s.peers[k].last_status.field("peers"@).field(id), seed),
{
    if still_published(s, seed) {
        let k = choose|k: Seq<char>| #[trigger]
            s.peers.contains_key(k) && s.peers[k].alive && snapshot_publishes(
                s.peers[k].last_status,
                seed,
            );
        let doc = s.peers[k].last_status.field("peers"@);
        let m = doc.fields();
        let id = choose|id: Seq<char>| #[trigger]
            m.contains_key(id) && published_control(m[id]) == Some(seed);
        lemma_publishes(m[id], seed);
        assert(doc.has(id) && doc.field(id) == m[id]);
        assert(s.peers.contains_key(k) && s.peers[k].last_status.field("peers"@).has(id));
    }
    if exists|k: Seq<char>, id: Seq<char>|
        #![trigger s.peers.contains_key(k), s.peers[k].last_status.field("peers"@).has(id)]
        s.peers.contains_key(k) && s.peers[k].alive && s.peers[k].last_status.field("peers"@).has(
            id,
        ) && publishes(s.peers[k].last_status.field("peers"@).field(id), seed) {
        let (k, id) = choose|k: Seq<char>, id: Seq<char>|
            #![trigger s.peers.contains_key(k), s.peers[k].last_status.field("peers"@).has(id)]
            s.peers.contains_key(k) && s.peers[k].alive && s.peers[k].last_status.field(
                "peers"@,
            ).has(id) && publishes(s.peers[k].last_status.field("peers"@).field(id), seed);
        let doc = s.peers[k].last_status.field("peers"@);
        lemma_publishes(doc.field(id), seed);
        assert(doc.fields().contains_key(id) && doc.fields()[id] == doc.field(id));
        assert(snapshot_publishes(s.peers[k].last_status, seed));
    }
}

proof fn lemma_more_targets(out: Seq<Seq<char>>, addrs: Seq<Seq<char>>, port: Seq<char>)
    ensures
        ({
            let r = more_targets(out, addrs, port);
            &&& r.len() >= out.len()
            &&& r.take(out.len() as int) == out
            &&& forall|i: int|
                out.len() <= i < r.len() ==> exists|j: int|
                    0 <= j < addrs.len() && !loopback(addrs[j])
                        && #[trigger] r[i] == #[trigger] addrs[j] + ":"@ + port
            &&& forall|j: int|
                0 <= j < addrs.len() && !loopback(#[trigger] addrs[j])
                    ==> r.contains(addrs[j] + ":"@ + port)
        }),
    decreases addrs.len(),
{
    let r = more_targets(out, addrs, port);
    if addrs.len() > 0 {
        let init = addrs.drop_last();
        let last = addrs.last();
        assert(addrs[addrs.len() - 1] == last);
        lemma_more_targets(out, init, port);
        let had = more_targets(out, init, port);
        assert(r.take(out.len() as int) =~= had.take(out.len() as int));
        assert forall|i: int| out.len() <= i < r.len() implies exists|j: int|
            0 <= j < addrs.len() && !loopback(addrs[j]) && #[trigger] r[i]
                == #[trigger] addrs[j] + ":"@ + port by {
            if i < had.len() {
                assert(r[i] == had[i]);
                let j = choose|j: int|
                    0 <= j < init.len() && !loopback(init[j]) && had[i]
                        == #[trigger] init[j] + ":"@ + port;
                assert(addrs[j] == init[j]);
            } else {
                assert(r[i] == addrs[addrs.len() - 1] + ":"@ + port);
            }
        }
        assert forall|j: int|
            0 <= j < addrs.len() && !loopback(
                #[trigger] addrs[j],
            ) implies r.contains(addrs[j] + ":"@ + port) by {
            let t = addrs[j] + ":"@ + port;
            if j < init.len() {
                assert(init[j] == addrs[j]);
                assert(had.contains(t));
                assert(r[had.index_of(t)] == t);
            } else if had.contains(t) {
                assert(r[had.index_of(t)] == t);
            } else {
                assert(r[had.len() as int] == t);
            }
        }
    } else {
        assert(r.take(out.len() as int) =~= out);
    }
}

/// A seed is dialled first, and then each other address that its node last announced, on
/// the seed's port; a box's own addresses are left out.
pub proof fn law_a_seed_is_dialled_first(s: StateV, seed: Seq<char>, id: Seq<char>, i: int)
    requires
        split_last(seed, ':') is Some,
    ensures
        dial_list(s, seed, Some(id)).len() > 0,
        dial_list(s, seed, Some(id))[0] == seed,
        s.peers.contains_key(id) && 0 <= i < s.peers[id].addrs.len()
            && !loopback(s.peers[id].addrs[i]) ==> dial_list(
            s,
            seed,
            Some(id),
        ).contains(s.peers[id].addrs[i] + ":"@ + (split_last(seed, ':')->0).1),
        !s.peers.contains_key(id) ==> dial_list(s, seed, Some(id)) == seq![seed],
{
    let (host, port) = split_last(seed, ':')->0;
    if s.peers.contains_key(id) {
        lemma_more_targets(seq![seed], s.peers[id].addrs, port);
        let r = dial_list(s, seed, Some(id));
        assert(r.take(1)[0] == seq![seed][0]);
    }
}

// ---------------------------------------------------------------------------
// Probes
// ---------------------------------------------------------------------------
proof fn lemma_probe_list(peers: Map<Seq<char>, PeerV>, keys: Seq<Seq<char>>)
    ensures
        ({
            let v = probe_list(peers, keys);
            &&& forall|i: int|
                0 <= i < v.len() ==> ({
                    let t = #[trigger] v[i];
                    &&& keys.contains(t.peer)
                    &&& peers[t.peer].alive
                    &&& peers[t.peer].addrs.len() > 0
                    &&& peers[t.peer].control_port > 0
                    &&& t.port == peers[t.peer].control_port
                    &&& t.addrs == peers[t.peer].addrs
                })
            &&& forall|j: int|
                0 <= j < keys.len() && peers[#[trigger] keys[j]].alive && peers[keys[j]].addrs.len()
                    > 0 && peers[keys[j]].control_port > 0 ==> exists|i: int|
                    0 <= i < v.len() && (#[trigger] v[i]).peer == keys[j]
        }),
    decreases keys.len(),
{
    if keys.len() > 0 {
        let init = keys.drop_last();
        let last = keys.last();
        assert(keys[keys.len() - 1] == last);
        lemma_probe_list(peers, init);
        let had = probe_list(peers, init);
        let v = probe_list(peers, keys);
        assert forall|i: int| 0 <= i < v.len() implies ({
            let t = #[trigger] v[i];
            &&& keys.contains(t.peer)
            &&& peers[t.peer].alive
            &&& peers[t.peer].addrs.len() > 0
            &&& peers[t.peer].control_port > 0
            &&& t.port == peers[t.peer].control_port
            &&& t.addrs == peers[t.peer].addrs
        }) by {
            if i < had.len() {
                assert(v[i] == had[i]);
                assert(keys[init.index_of(had[i].peer)] == had[i].peer);
            }
        }
        assert forall|j: int|
            0 <= j < keys.len() && peers[#[trigger] keys[j]].alive && peers[keys[j]].addrs.len()
                > 0 && peers[keys[j]].control_port > 0 implies exists|i: int|
            0 <= i < v.len() && (#[trigger] v[i]).peer == keys[j] by {
            if j < init.len() {
                assert(init[j] == keys[j]);
                let i = choose|i: int| 0 <= i < had.len() && (#[trigger] had[i]).peer == init[j];
                assert(v[i] == had[i]);
            } else {
                assert(v[had.len() as int].peer == last);
            }
        }
    }
}

/// Every live peer with an address and a control port is probed, at all of its
/// addresses and that port; no other is.
pub proof fn law_every_live_peer_is_probed(s: StateV, k: Seq<char>)
    requires
        s.peers.dom().finite(),
    ensures
        (exists|i: int|
            0 <= i < probe_list(s.peers, ordered(s.peers.dom())).len() && (
            #[trigger] probe_list(s.peers, ordered(s.peers.dom()))[i]).peer == k) <==> {
            &&& s.peers.contains_key(k)
            &&& s.peers[k].alive
            &&& s.peers[k].addrs.len() > 0
            &&& s.peers[k].control_port > 0
        },
        forall|i: int|
            0 <= i < probe_list(s.peers, ordered(s.peers.dom())).len() ==> ({
                let t = #[trigger] probe_list(s.peers, ordered(s.peers.dom()))[i];
                t.port == s.peers[t.peer].control_port && t.addrs == s.peers[t.peer].addrs
            }),
{
    let keys = ordered(s.peers.dom());
    lemma_finite_lists(s.peers.dom());
    lemma_probe_list(s.peers, keys);
    assert(keys.contains(k) == s.peers.dom().contains(k));
    if keys.contains(k) {
        assert(keys[keys.index_of(k)] == k);
    }
}

/// A probe that answered is recorded with its time; one that failed says why, and keeps
/// when it last answered. Only its pair of addresses changes.
pub proof fn law_a_probe_is_recorded(
    s: StateV,
    peer: Seq<char>,
    near: Seq<char>,
    far: Seq<char>,
    got: Probed,
    now: u64,
)
    requires
        s.peers.contains_key(peer),
    ensures
        ({
            let t = probe_told(s, peer, near, far, got, now);
            let had = s.peers[peer].probe_pairs;
            let m = t.peers[peer].probe_pairs;
            let c = m[near][far];
            &&& m.contains_key(near) && m[near].contains_key(far)
            &&& got matches Probed::Answered { rtt_ms } ==> c.ok && c.rtt_ms == rtt_ms
                && c.last_ok_ms == now && c.error.len() == 0
            &&& got matches Probed::Failed { error } ==> !c.ok && c.error == error@ && (
            had.contains_key(near) && had[near].contains_key(far) ==> c.last_ok_ms
                == had[near][far].last_ok_ms)
            &&& forall|a: Seq<char>, b: Seq<char>|
                #![trigger had[a].contains_key(b)]
                had.contains_key(a) && had[a].contains_key(b) && (a != near || b != far)
                    ==> m.contains_key(a) && m[a].contains_key(b) && m[a][b] == had[a][b]
            &&& t.peers[peer].alive == s.peers[peer].alive
            &&& forall|k: Seq<char>|
                k != peer && s.peers.contains_key(k) ==> #[trigger] t.peers[k] == s.peers[k]
        }),
{
}

/// After a round of probes a pair of addresses is kept exactly where both ends still
/// have their address.
pub proof fn law_a_round_forgets_lost_addresses(
    s: StateV,
    peer: Seq<char>,
    locals: Seq<Seq<char>>,
    remotes: Seq<Seq<char>>,
    a: Seq<char>,
    b: Seq<char>,
)
    requires
        s.peers.contains_key(peer),
    ensures
        ({
            let had = s.peers[peer].probe_pairs;
            let m = round_done(s, peer, locals, remotes).peers[peer].probe_pairs;
            let was = had.contains_key(a) && had[a].contains_key(b);
            &&& (m.contains_key(a) && m[a].contains_key(b)) <==> was && locals.contains(a)
                && remotes.contains(b)
            &&& m.contains_key(a) && m[a].contains_key(b) ==> m[a][b] == had[a][b]
        }),
{
}

/// A probe counts only where the node that was meant answered.
pub proof fn law_only_the_node_meant_answers_a_probe(reply: ProbeReply, meant: Seq<char>)
    ensures
        reply_error(reply, meant) is None <==> (reply matches ProbeReply::Node { id } && id@
            == meant),
{
}

proof fn lemma_links_of(peers: Map<Seq<char>, PeerV>, keys: Seq<Seq<char>>, link: u64)
    ensures
        links_of(peers, keys).contains(link) <==> exists|i: int|
            0 <= i < keys.len() && peers[#[trigger] keys[i]].alive && peers[keys[i]].link == link,
    decreases keys.len(),
{
    if keys.len() > 0 {
        let init = keys.drop_last();
        let last = keys.last();
        assert(keys[keys.len() - 1] == last);
        lemma_links_of(peers, init, link);
        let had = links_of(peers, init);
        let v = links_of(peers, keys);
        if v.contains(link) {
            let x = v.index_of(link);
            if x < had.len() {
                assert(had[x] == link);
                assert(had.contains(link));
                let i = choose|i: int|
                    0 <= i < init.len() && peers[#[trigger] init[i]].alive && peers[init[i]].link
                        == link;
                assert(keys[i] == init[i]);
            }
        }
        if exists|i: int|
            0 <= i < keys.len() && peers[#[trigger] keys[i]].alive && peers[keys[i]].link == link {
            let i = choose|i: int|
                0 <= i < keys.len() && peers[#[trigger] keys[i]].alive && peers[keys[i]].link
                    == link;
            if i < init.len() {
                assert(init[i] == keys[i]);
                assert(had.contains(link));
                assert(v[had.index_of(link)] == link);
            } else {
                assert(v[had.len() as int] == link);
            }
        }
    }
}

/// A snapshot is pushed over the link of each live peer, and over no other.
pub proof fn law_a_snapshot_goes_to_every_live_peer(s: StateV, link: u64)
    requires
        s.peers.dom().finite(),
    ensures
        links_of(s.peers, ordered(s.peers.dom())).contains(link) <==> exists|k: Seq<char>|
            #[trigger] s.peers.contains_key(k) && s.peers[k].alive && s.peers[k].link == link,
{
    let keys = ordered(s.peers.dom());
    lemma_finite_lists(s.peers.dom());
    lemma_links_of(s.peers, keys, link);
    if links_of(s.peers, keys).contains(link) {
        let i = choose|i: int|
            0 <= i < keys.len() && s.peers[#[trigger] keys[i]].alive && s.peers[keys[i]].link
                == link;
        assert(keys.contains(keys[i]));
        assert(s.peers.dom().contains(keys[i]));
    }
    if exists|k: Seq<char>| #[trigger]
        s.peers.contains_key(k) && s.peers[k].alive && s.peers[k].link == link {
        let k = choose|k: Seq<char>| #[trigger]
            s.peers.contains_key(k) && s.peers[k].alive && s.peers[k].link == link;
        assert(s.peers.dom().contains(k));
        assert(keys.contains(k));
        assert(keys[keys.index_of(k)] == k);
    }
}

} // verus!
