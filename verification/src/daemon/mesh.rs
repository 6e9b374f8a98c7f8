//! The daemon mesh: links between daemons, head election, and probes.
//!
//! There is no consensus protocol. State is soft and is rebuilt from the
//! agents and drivers themselves, so the mesh only has to give every daemon
//! the same answer to one question: which daemon is the head.

use vstd::prelude::*;
use vstd::string::*;

use crate::common::dict::{drop_keys, lemma_increasing_distinct, lists, ordered, those, Dict};
use crate::common::json::{meaning, metas, Json, JsonV};
use crate::common::text::{
    before, dec, decimal, listed, opt_text, rsplit_once, same, sorts_before, split_last, texts,
};
use crate::daemon::ident::with_port;
use crate::daemon::state::{
    is_loopback, loopback, patch_views, PairProbe, PairV, Patch, PatchV, PeerInfo, PeerV, State,
    StateV,
};
use crate::daemon::status::{peer_row, peer_row_of};
use crate::daemon::sweep::{elapsed, since};

verus! {

broadcast use meaning;

// ---------------------------------------------------------------------------
// Lists in snapshots
// ---------------------------------------------------------------------------
/// The strings of a list of values.
pub open spec fn strings_of(v: Seq<JsonV>) -> Seq<Seq<char>>
    decreases v.len(),
{
    if v.len() == 0 {
        Seq::empty()
    } else {
        let had = strings_of(v.drop_last());
        match v.last().text() {
            Some(s) => had.push(s),
            None => had,
        }
    }
}

/// The strings of an array, and none of anything else.
pub fn str_list(j: &Json) -> (r: Vec<String>)
    ensures
        texts(r@) == strings_of(j.v().items()),
{
    let mut out: Vec<String> = Vec::new();
    proof {
        assert(texts(out@) =~= Seq::<Seq<char>>::empty());
    }
    if let Json::Arr(a) = j {
        let ghost all = metas(a@);
        let mut i: usize = 0;
        while i < a.len()
            invariant
                all == metas(a@),
                i <= a@.len(),
                texts(out@) == strings_of(all.take(i as int)),
            decreases a@.len() - i,
        {
            proof {
                assert(all.take(i + 1).drop_last() =~= all.take(i as int));
                assert(all.take(i + 1).last() == a@[i as int].v());
            }
            if let Some(s) = a[i].as_str() {
                let ghost was = out@;
                out.push(s.to_string());
                proof {
                    assert(texts(out@) =~= texts(was).push(s@));
                }
            }
            i += 1;
        }
        proof {
            assert(all.take(all.len() as int) =~= all);
        }
    }
    out
}

/// The strings of a name's array.
pub fn str_list_at(j: &Json, key: &str) -> (r: Vec<String>)
    ensures
        texts(r@) == strings_of(j.v().field(key@).items()),
{
    match j.get(key) {
        Some(x) => str_list(x),
        None => {
            let none: Vec<String> = Vec::new();
            proof {
                assert(texts(none@) =~= Seq::<Seq<char>>::empty());
            }
            none
        },
    }
}

// ---------------------------------------------------------------------------
// Dialing
// ---------------------------------------------------------------------------
/// The control address that a snapshot publishes for a peer.
pub open spec fn published_control(q: JsonV) -> Option<Seq<char>> {
    let said = q.field("control_addr"@).text_or_empty();
    let ip = q.field("node_ip"@).text_or_empty();
    if said.len() > 0 {
        Some(said)
    } else if ip.len() > 0 && q.field("control_port"@).uint() is Some
        && q.field("control_port"@).uint()->Some_0 > 0 {
        Some(ip + ":"@ + decimal(q.field("control_port"@).uint()->Some_0 as nat))
    } else {
        None
    }
}

fn control_of(q: &Json) -> (r: Option<String>)
    ensures
        opt_text(r) == published_control(q.v()),
{
    let said = q.text_or_empty_at("control_addr");
    if !said.as_str().is_empty() {
        return Some(said);
    }
    let mut ip = q.text_or_empty_at("node_ip");
    if ip.as_str().is_empty() {
        return None;
    }
    match q.uint_at("control_port") {
        Some(port) => {
            if port == 0 {
                return None;
            }
            ip.append(":");
            ip.append(dec(port).as_str());
            Some(ip)
        },
        None => None,
    }
}

/// Whether a node is a live peer.
pub open spec fn peer_alive(s: StateV, id: Seq<char>) -> bool {
    s.peers.contains_key(id) && s.peers[id].alive
}

/// Whether a node that a peer publishes is to be dialed: another one, with no
/// live link, that the peer has one to.
pub open spec fn worth_dialing(s: StateV, id: Seq<char>, q: JsonV) -> bool {
    id != s.node_id && !peer_alive(s, id) && q.field("alive"@).is_true()
        && published_control(q) is Some
}

/// The control addresses worth dialing that a snapshot publishes.
pub open spec fn targets_in(
    s: StateV,
    m: Map<Seq<char>, JsonV>,
    keys: Seq<Seq<char>>,
) -> Seq<Seq<char>>
    decreases keys.len(),
{
    if keys.len() == 0 {
        Seq::empty()
    } else {
        let had = targets_in(s, m, keys.drop_last());
        let q = m[keys.last()];
        if worth_dialing(s, keys.last(), q) {
            had.push(published_control(q)->Some_0)
        } else {
            had
        }
    }
}

/// The control addresses worth dialing that the live peers of `keys` publish.
pub open spec fn targets_of(s: StateV, keys: Seq<Seq<char>>) -> Seq<Seq<char>>
    decreases keys.len(),
{
    if keys.len() == 0 {
        Seq::empty()
    } else {
        let had = targets_of(s, keys.drop_last());
        let p = s.peers[keys.last()];
        if p.alive {
            let m = p.last_status.field("peers"@).fields();
            had + targets_in(s, m, ordered(m.dom()))
        } else {
            had
        }
    }
}

fn push_targets(st: &State, status: &Json, out: &mut Vec<String>)
    ensures
        texts(final(out)@) == texts(old(out)@) + targets_in(
            st@,
            status.v().field("peers"@).fields(),
            ordered(status.v().field("peers"@).fields().dom()),
        ),
{
    let ghost start = texts(out@);
    let none = Json::object();
    let m = match status.fields_at("peers") {
        Some(d) => d,
        None => &none,
    };
    let ghost mv = m.deep_view();
    proof {
        assert(mv == status.v().field("peers"@).fields());
        assert(mv.dom() =~= m@.dom());
    }
    let n: usize = m.len();
    let ghost order = m.order();
    let mut i: usize = 0;
    proof {
        assert(start + targets_in(st@, mv, order.take(0)) =~= start);
    }
    while i < n
        invariant
            i <= n,
            n == order.len(),
            order == m.order(),
            mv == m.deep_view(),
            texts(out@) == start + targets_in(st@, mv, order.take(i as int)),
        decreases n - i,
    {
        let id = m.key_at(i).as_str();
        let q = m.val_at(i);
        proof {
            assert(order.take(i + 1).drop_last() =~= order.take(i as int));
            assert(order.take(i + 1).last() == order[i as int]);
            assert(mv[order[i as int]] == q.v());
        }
        let linked = match st.peers.get(id) {
            Some(p) => p.alive,
            None => false,
        };
        if !same(id, st.node_id.as_str()) && !linked && q.true_at("alive") {
            if let Some(c) = control_of(q) {
                let ghost was = out@;
                let ghost cv = c@;
                out.push(c);
                proof {
                    assert(texts(out@) =~= texts(was).push(cv));
                    assert(texts(out@) =~= start + targets_in(st@, mv, order.take(i + 1)));
                }
            }
        }
        i += 1;
    }
    proof {
        assert(order.take(order.len() as int) =~= order);
    }
}

/// Every control address the live peers publish, of nodes this daemon has no
/// link to. One reachable seed then joins the whole mesh. Nodes that could see
/// only a hub would otherwise each elect themselves head when it went.
pub fn discovered(st: &State) -> (r: Vec<String>)
    ensures
        texts(r@) == targets_of(st@, ordered(st@.peers.dom())),
{
    let mut out: Vec<String> = Vec::new();
    let n: usize = st.peers.len();
    let ghost order = st.peers.order();
    let mut i: usize = 0;
    proof {
        assert(st@.peers.dom() =~= st.peers@.dom());
        assert(texts(out@) =~= Seq::<Seq<char>>::empty());
    }
    while i < n
        invariant
            i <= n,
            n == order.len(),
            order == st.peers.order(),
            texts(out@) == targets_of(st@, order.take(i as int)),
        decreases n - i,
    {
        let p = st.peers.val_at(i);
        proof {
            assert(order.take(i + 1).drop_last() =~= order.take(i as int));
            assert(order.take(i + 1).last() == order[i as int]);
            assert(st@.peers[order[i as int]] == p.deep_view());
        }
        if p.alive {
            push_targets(st, &p.last_status, &mut out);
        }
        i += 1;
    }
    proof {
        assert(order.take(order.len() as int) =~= order);
    }
    out
}

/// Where a peer takes control connections, by what it calls itself.
pub open spec fn peer_control(p: PeerV) -> Seq<char> {
    with_port(p.node_ip, p.control_port)
}

/// Whether a connector's node has a live link: the node it learned on first
/// contact, or any whose control address is the seed.
pub open spec fn covers(s: StateV, seed: Seq<char>, known: Option<Seq<char>>) -> bool {
    match known {
        Some(id) => peer_alive(s, id),
        None => exists|k: Seq<char>| #[trigger]
            s.peers.contains_key(k) && s.peers[k].alive && peer_control(s.peers[k]) == seed,
    }
}

fn control_addr(p: &PeerInfo) -> (r: String)
    ensures
        r@ == peer_control(p.deep_view()),
{
    let mut a = p.node_ip.clone();
    a.append(":");
    a.append(dec(p.control_port as u64).as_str());
    a
}

/// Whether a connector's node has a live link.
pub fn covered(st: &State, seed: &str, known: &Option<String>) -> (r: bool)
    ensures
        r == covers(st@, seed@, opt_text(*known)),
{
    if let Some(id) = known {
        return match st.peers.get(id.as_str()) {
            Some(p) => p.alive,
            None => false,
        };
    }
    let n: usize = st.peers.len();
    let ghost order = st.peers.order();
    let mut i: usize = 0;
    while i < n
        invariant
            i <= n,
            n == order.len(),
            order == st.peers.order(),
            lists(order, st.peers@.dom()),
            *known is None,
            forall|j: int|
                0 <= j < i ==> !(st@.peers[#[trigger] order[j]].alive && peer_control(
                    st@.peers[order[j]],
                ) == seed@),
        decreases n - i,
    {
        let p = st.peers.val_at(i);
        proof {
            assert(st@.peers[order[i as int]] == p.deep_view());
            assert(st@.peers.contains_key(order[i as int]));
        }
        if p.alive && same(control_addr(p).as_str(), seed) {
            return true;
        }
        i += 1;
    }
    proof {
        if covers(st@, seed@, None) {
            let k = choose|k: Seq<char>| #[trigger]
                st@.peers.contains_key(k) && st@.peers[k].alive && peer_control(st@.peers[k])
                    == seed@;
            assert(st.peers@.dom().contains(k));
            let j = order.index_of(k);
            assert(order[j] == k);
        }
    }
    false
}

/// Whether a snapshot publishes a control address.
pub open spec fn snapshot_publishes(status: JsonV, seed: Seq<char>) -> bool {
    let m = status.field("peers"@).fields();
    exists|k: Seq<char>| #[trigger]
        m.contains_key(k) && published_control(m[k]) == Some(seed)
}

/// Whether a live peer publishes a control address.
pub open spec fn still_published(s: StateV, seed: Seq<char>) -> bool {
    exists|k: Seq<char>| #[trigger]
        s.peers.contains_key(k) && s.peers[k].alive && snapshot_publishes(
            s.peers[k].last_status,
            seed,
        )
}

fn publishes(status: &Json, seed: &str) -> (r: bool)
    ensures
        r == snapshot_publishes(status.v(), seed@),
{
    let none = Json::object();
    let m = match status.fields_at("peers") {
        Some(d) => d,
        None => &none,
    };
    let ghost mv = m.deep_view();
    proof {
        assert(mv == status.v().field("peers"@).fields());
    }
    let n: usize = m.len();
    let ghost order = m.order();
    let mut i: usize = 0;
    while i < n
        invariant
            i <= n,
            n == order.len(),
            order == m.order(),
            lists(order, m@.dom()),
            mv == m.deep_view(),
            mv == status.v().field("peers"@).fields(),
            forall|j: int|
                0 <= j < i ==> published_control(mv[#[trigger] order[j]]) != Some(seed@),
        decreases n - i,
    {
        let q = m.val_at(i);
        proof {
            assert(mv[order[i as int]] == q.v());
            assert(mv.contains_key(order[i as int]));
        }
        let hit = match control_of(q) {
            Some(c) => same(c.as_str(), seed),
            None => false,
        };
        if hit {
            return true;
        }
        i += 1;
    }
    proof {
        if snapshot_publishes(status.v(), seed@) {
            let k = choose|k: Seq<char>| #[trigger]
                mv.contains_key(k) && published_control(mv[k]) == Some(seed@);
            assert(m@.dom().contains(k));
            let j = order.index_of(k);
            assert(order[j] == k);
        }
    }
    false
}

fn published(st: &State, seed: &str) -> (r: bool)
    ensures
        r == still_published(st@, seed@),
{
    let n: usize = st.peers.len();
    let ghost order = st.peers.order();
    let mut i: usize = 0;
    while i < n
        invariant
            i <= n,
            n == order.len(),
            order == st.peers.order(),
            lists(order, st.peers@.dom()),
            forall|j: int|
                0 <= j < i ==> !(st@.peers[#[trigger] order[j]].alive && snapshot_publishes(
                    st@.peers[order[j]].last_status,
                    seed@,
                )),
        decreases n - i,
    {
        let p = st.peers.val_at(i);
        proof {
            assert(st@.peers[order[i as int]] == p.deep_view());
            assert(st@.peers.contains_key(order[i as int]));
        }
        if p.alive && publishes(&p.last_status, seed) {
            return true;
        }
        i += 1;
    }
    proof {
        if still_published(st@, seed@) {
            let k = choose|k: Seq<char>| #[trigger]
                st@.peers.contains_key(k) && st@.peers[k].alive && snapshot_publishes(
                    st@.peers[k].last_status,
                    seed@,
                );
            assert(st.peers@.dom().contains(k));
            let j = order.index_of(k);
            assert(order[j] == k);
        }
    }
    false
}

/// Those of some addresses that are of no use: loopback ones, and those whose
/// target is in hand already.
pub open spec fn more_targets(
    out: Seq<Seq<char>>,
    addrs: Seq<Seq<char>>,
    port: Seq<char>,
) -> Seq<Seq<char>>
    decreases addrs.len(),
{
    if addrs.len() == 0 {
        out
    } else {
        let had = more_targets(out, addrs.drop_last(), port);
        let t = addrs.last() + ":"@ + port;
        if loopback(addrs.last()) || had.contains(t) {
            had
        } else {
            had.push(t)
        }
    }
}

/// The first peer, in the order of `keys`, whose control address is the seed
/// or that announces its host.
pub open spec fn seed_peer(
    peers: Map<Seq<char>, PeerV>,
    seed: Seq<char>,
    host: Seq<char>,
    keys: Seq<Seq<char>>,
) -> Option<PeerV>
    decreases keys.len(),
{
    if keys.len() == 0 {
        None
    } else if peer_control(peers[keys[0]]) == seed || peers[keys[0]].addrs.contains(host) {
        Some(peers[keys[0]])
    } else {
        seed_peer(peers, seed, host, keys.drop_first())
    }
}

/// The seed, then every address its node last announced, on the seed's port.
/// The node is found by id, or by the seed among its addresses.
pub open spec fn dial_list(s: StateV, seed: Seq<char>, known: Option<Seq<char>>) -> Seq<Seq<char>> {
    match split_last(seed, ':') {
        None => seq![seed],
        Some((host, port)) => {
            let peer = match known {
                Some(id) => if s.peers.contains_key(id) {
                    Some(s.peers[id])
                } else {
                    None
                },
                None => seed_peer(s.peers, seed, host, ordered(s.peers.dom())),
            };
            match peer {
                Some(p) => more_targets(seq![seed], p.addrs, port),
                None => seq![seed],
            }
        },
    }
}

fn find_seed_peer(st: &State, seed: &str, host: &str) -> (r: Option<usize>)
    ensures
        match r {
            Some(i) => i < st.peers.order().len() && seed_peer(
                st@.peers,
                seed@,
                host@,
                ordered(st@.peers.dom()),
            ) == Some(st@.peers[st.peers.order()[i as int]]),
            None => seed_peer(st@.peers, seed@, host@, ordered(st@.peers.dom())) is None,
        },
{
    let n: usize = st.peers.len();
    let ghost order = st.peers.order();
    let mut i: usize = 0;
    proof {
        assert(st@.peers.dom() =~= st.peers@.dom());
        assert(order.skip(0) =~= order);
    }
    while i < n
        invariant
            i <= n,
            n == order.len(),
            order == st.peers.order(),
            order == ordered(st@.peers.dom()),
            seed_peer(st@.peers, seed@, host@, order) == seed_peer(
                st@.peers,
                seed@,
                host@,
                order.skip(i as int),
            ),
        decreases n - i,
    {
        let p = st.peers.val_at(i);
        proof {
            assert(order.skip(i as int)[0] == order[i as int]);
            assert(order.skip(i as int).drop_first() =~= order.skip(i + 1));
            assert(st@.peers[order[i as int]] == p.deep_view());
        }
        if same(control_addr(p).as_str(), seed) || listed(&p.addrs, host) {
            return Some(i);
        }
        i += 1;
    }
    None
}

/// The seed, then every address its node last announced, on the seed's port.
pub fn dial_targets(st: &State, seed: &str, known: &Option<String>) -> (r: Vec<String>)
    ensures
        texts(r@) == dial_list(st@, seed@, opt_text(*known)),
{
    let mut out: Vec<String> = Vec::new();
    out.push(seed.to_string());
    proof {
        assert(texts(out@) =~= seq![seed@]);
    }
    let (host, port) = match rsplit_once(seed, ':') {
        Some(x) => x,
        None => return out,
    };
    let peer = match known {
        Some(id) => st.peers.get(id.as_str()),
        None => match find_seed_peer(st, seed, host) {
            Some(i) => Some(st.peers.val_at(i)),
            None => None,
        },
    };
    if let Some(p) = peer {
        let ghost start = texts(out@);
        let ghost all = texts(p.addrs@);
        let mut i: usize = 0;
        while i < p.addrs.len()
            invariant
                i <= p.addrs@.len(),
                all == texts(p.addrs@),
                texts(out@) == more_targets(start, all.take(i as int), port@),
            decreases p.addrs@.len() - i,
        {
            let a = p.addrs[i].as_str();
            proof {
                assert(all.take(i + 1).drop_last() =~= all.take(i as int));
                assert(all.take(i + 1).last() == a@);
            }
            if !is_loopback(a) {
                let mut t = a.to_string();
                t.append(":");
                t.append(port);
                if !listed(&out, t.as_str()) {
                    let ghost was = out@;
                    let ghost tv = t@;
                    out.push(t);
                    proof {
                        assert(texts(out@) =~= texts(was).push(tv));
                    }
                }
            }
            i += 1;
        }
        proof {
            assert(all.take(all.len() as int) =~= all);
        }
    }
    out
}

/// What a connector does next.
#[derive(Debug)]
pub enum Dial {
    /// Its node has a link.
    Covered,
    /// Nobody knows the target any more. The connector ends.
    Stop,
    /// Try these addresses in turn.
    Try(Vec<String>),
}

/// A connector's step. `uncovered_ms` is how long its node has had no link. A
/// seed is dialed for the life of the process, and a discovered target until
/// its node is forgotten and no live peer publishes it.
pub fn connector_step(
    st: &State,
    seed: &str,
    known: &Option<String>,
    found: bool,
    uncovered_ms: u64,
    keep_ms: u64,
) -> (r: Dial)
    ensures
        match r {
            Dial::Covered => covers(st@, seed@, opt_text(*known)),
            Dial::Stop => !covers(st@, seed@, opt_text(*known)) && found && uncovered_ms > keep_ms
                && !still_published(st@, seed@),
            Dial::Try(v) => !covers(st@, seed@, opt_text(*known)) && !(found && uncovered_ms
                > keep_ms && !still_published(st@, seed@)) && texts(v@) == dial_list(
                st@,
                seed@,
                opt_text(*known),
            ),
        },
{
    if covered(st, seed, known) {
        return Dial::Covered;
    }
    if found && uncovered_ms > keep_ms && !published(st, seed) {
        return Dial::Stop;
    }
    Dial::Try(dial_targets(st, seed, known))
}

// ---------------------------------------------------------------------------
// Registering a link
// ---------------------------------------------------------------------------
/// What a peer says about itself in its hello, plus what the link observed.
#[derive(Debug)]
pub struct PeerIdent {
    pub node_id: String,
    /// This daemon dialed the link. The other side accepted it.
    pub outbound: bool,
    pub node_ip: String,
    pub link_ip: String,
    pub addrs: Vec<String>,
    pub addr_tags: Dict<Vec<String>>,
    pub addr_ifaces: Dict<String>,
    pub control_port: u16,
    pub http_port: u16,
}

/// Whether two lists of addresses describe one box: they share one that is not
/// loopback.
pub open spec fn overlap(a: Seq<Seq<char>>, b: Seq<Seq<char>>) -> bool {
    exists|i: int| 0 <= i < a.len() && !loopback(#[trigger] a[i]) && b.contains(a[i])
}

/// Whether two peer entries describe one box.
///
/// A node id comes of an address, so a box that comes back calling itself
/// something else joins as a second peer while the first is left behind. What
/// ties the two together is the address list, which both carry in full and
/// which is the same list.
///
/// Loopback is on every box, so an overlap there identifies nothing and is
/// left out. An empty list matches nothing.
pub fn same_box(arriving: &Vec<String>, existing: &Vec<String>) -> (r: bool)
    ensures
        r == overlap(texts(arriving@), texts(existing@)),
{
    let ghost a = texts(arriving@);
    let mut i: usize = 0;
    while i < arriving.len()
        invariant
            i <= arriving@.len(),
            a == texts(arriving@),
            forall|j: int|
                0 <= j < i ==> !(!loopback(#[trigger] a[j]) && texts(existing@).contains(a[j])),
        decreases arriving@.len() - i,
    {
        proof {
            assert(a[i as int] == arriving@[i as int]@);
        }
        if !is_loopback(arriving[i].as_str()) && listed(existing, arriving[i].as_str()) {
            return true;
        }
        i += 1;
    }
    false
}

/// Which of two boxes shares an address with which does not matter.
pub proof fn law_one_box_is_one_box_both_ways(a: Seq<Seq<char>>, b: Seq<Seq<char>>)
    ensures
        overlap(a, b) == overlap(b, a),
{
    if overlap(a, b) {
        let i = choose|i: int| 0 <= i < a.len() && !loopback(#[trigger] a[i]) && b.contains(a[i]);
        let j = b.index_of(a[i]);
        assert(!loopback(b[j]) && a.contains(b[j]));
    }
    if overlap(b, a) {
        let i = choose|i: int| 0 <= i < b.len() && !loopback(#[trigger] b[i]) && a.contains(b[i]);
        let j = a.index_of(b[i]);
        assert(!loopback(a[j]) && b.contains(a[j]));
    }
}

/// Who dialed a link between this daemon and a node.
pub open spec fn dialer(s: StateV, id: Seq<char>, outbound: bool) -> Seq<char> {
    if outbound {
        s.node_id
    } else {
        id
    }
}

/// Whether a second link to a live peer is refused: the one that the lower id
/// dialed wins, which both ends decide alike.
pub open spec fn link_refused(s: StateV, id: Seq<char>, outbound: bool) -> bool {
    peer_alive(s, id) && !before(
        dialer(s, id, outbound),
        dialer(s, id, s.peers[id].outbound),
    )
}

/// The dead entries of a box under identities it has stopped using.
pub open spec fn superseded(s: StateV, id: Seq<char>, addrs: Seq<Seq<char>>) -> Seq<Seq<char>> {
    those(ordered(s.peers.dom()), |k: Seq<char>| ghost_of(s, id, addrs, k))
}

/// Whether a peer is a dead entry of the box that a node is on.
pub open spec fn ghost_of(s: StateV, id: Seq<char>, addrs: Seq<Seq<char>>, k: Seq<char>) -> bool {
    !s.peers[k].alive && k != id && overlap(addrs, s.peers[k].addrs)
}

/// The row of a peer whose link is new. A new link keeps the probed pairs and
/// the last snapshot: the pairs describe cabling, which a dropped control link
/// says nothing about.
pub open spec fn linked_row(s: StateV, p: PeerIdent, link: u64, now: u64) -> PeerV {
    let known = s.peers.contains_key(p.node_id@);
    PeerV {
        node_id: p.node_id@,
        outbound: p.outbound,
        node_ip: p.node_ip@,
        link_ip: p.link_ip@,
        addrs: texts(p.addrs@),
        addr_tags: p.addr_tags.deep_view(),
        addr_ifaces: p.addr_ifaces.deep_view(),
        probe_pairs: if known {
            s.peers[p.node_id@].probe_pairs
        } else {
            Map::empty()
        },
        control_port: p.control_port,
        http_port: p.http_port,
        link,
        alive: true,
        last_seen_ms: now,
        dead_since_ms: 0,
        stale: false,
        last_status: if known {
            s.peers[p.node_id@].last_status
        } else {
            JsonV::Null
        },
    }
}

/// A patch that stores, or removes, a peer's row.
pub open spec fn peer_patch_of(id: Seq<char>, row: Option<JsonV>) -> PatchV {
    PatchV { at: seq!["peers"@, id], value: row }
}

/// The removals of some peers' rows.
pub open spec fn peers_gone(ids: Seq<Seq<char>>) -> Seq<PatchV> {
    Seq::new(ids.len(), |i: int| peer_patch_of(ids[i], None))
}

/// The state after a link to a peer was recorded. A link that replaces a live
/// one is no join, since the node was there.
pub open spec fn linked(s: StateV, p: PeerIdent, link: u64, now: u64) -> StateV {
    let id = p.node_id@;
    let row = linked_row(s, p, link, now);
    let gone = superseded(s, id, texts(p.addrs@));
    let t = StateV { peers: s.peers.remove_keys(gone.to_set()).insert(id, row), ..s };
    if peer_alive(s, id) {
        t
    } else {
        t.emit(
            "node_join"@,
            peers_gone(gone).push(peer_patch_of(id, Some(peer_row_of(row)))),
            p.node_ip@,
        )
    }
}

fn peer_patch(id: &str, row: Option<Json>) -> (r: Patch)
    ensures
        r.deep_view() == peer_patch_of(
            id@,
            match row {
                Some(j) => Some(j.v()),
                None => None,
            },
        ),
{
    let mut at: Vec<String> = Vec::new();
    at.push("peers".to_string());
    at.push(id.to_string());
    proof {
        assert(texts(at@) =~= seq!["peers"@, id@]);
    }
    Patch { at, value: row }
}

fn push_peers_gone(out: &mut Vec<Patch>, ids: &Vec<String>)
    ensures
        patch_views(final(out)@) == patch_views(old(out)@) + peers_gone(texts(ids@)),
{
    let ghost start = patch_views(out@);
    let ghost want = peers_gone(texts(ids@));
    let mut i: usize = 0;
    proof {
        assert(start + want.take(0) =~= start);
    }
    while i < ids.len()
        invariant
            i <= ids@.len(),
            want == peers_gone(texts(ids@)),
            patch_views(out@) == start + want.take(i as int),
        decreases ids@.len() - i,
    {
        let ghost had = out@;
        let p = peer_patch(ids[i].as_str(), None);
        let ghost pv = p.deep_view();
        out.push(p);
        proof {
            assert(patch_views(out@) =~= patch_views(had).push(pv));
            assert(want.take(i + 1) =~= want.take(i as int).push(want[i as int]));
            assert(patch_views(out@) =~= start + want.take(i + 1));
        }
        i += 1;
    }
    proof {
        assert(want.take(want.len() as int) =~= want);
    }
}

fn find_superseded(st: &State, id: &str, addrs: &Vec<String>) -> (r: Vec<String>)
    ensures
        texts(r@) == superseded(st@, id@, texts(addrs@)),
{
    let n: usize = st.peers.len();
    let ghost order = st.peers.order();
    let ghost s = st@;
    let ghost av = texts(addrs@);
    let mut out: Vec<String> = Vec::new();
    let mut i: usize = 0;
    proof {
        assert(s.peers.dom() =~= st.peers@.dom());
        assert(texts(out@) =~= Seq::<Seq<char>>::empty());
    }
    while i < n
        invariant
            i <= n,
            n == order.len(),
            order == st.peers.order(),
            s == st@,
            av == texts(addrs@),
            texts(out@) == those(
                order.take(i as int),
                |k: Seq<char>| ghost_of(s, id@, av, k),
            ),
        decreases n - i,
    {
        let p = st.peers.val_at(i);
        proof {
            assert(order.take(i + 1).drop_last() =~= order.take(i as int));
            assert(order.take(i + 1).last() == order[i as int]);
            assert(s.peers[order[i as int]] == p.deep_view());
        }
        if !p.alive && !same(st.peers.key_at(i).as_str(), id) && same_box(addrs, &p.addrs) {
            let ghost was = out@;
            out.push(st.peers.key_at(i).clone());
            proof {
                assert(texts(out@) =~= texts(was).push(order[i as int]));
            }
        }
        i += 1;
    }
    proof {
        assert(order.take(order.len() as int) =~= order);
    }
    out
}

/// What came of a link.
#[derive(Debug)]
pub enum Linked {
    /// Another link to the node is kept, and this one is dropped.
    Refused,
    /// This link is kept, and the one it replaces is closed.
    Kept { replaced: Option<u64> },
}

/// Record a link to a peer, or refuse it.
///
/// When two links to one node exist, the one dialed by the lower node id
/// wins, which both ends decide alike from who dialed and both ids. A losing
/// arrival is refused and a winning one replaces the old link. A dead entry
/// for the same box under an identity it has stopped using is dropped.
pub fn register_peer(st: &mut State, p: PeerIdent, link: u64, now: u64) -> (r: Linked)
    ensures
        match r {
            Linked::Refused => link_refused(old(st)@, p.node_id@, p.outbound) && final(st)@ == old(
                st,
            )@,
            Linked::Kept { replaced } => {
                &&& !link_refused(old(st)@, p.node_id@, p.outbound)
                &&& final(st)@ == linked(old(st)@, p, link, now)
                &&& replaced == (if peer_alive(old(st)@, p.node_id@) {
                    Some(old(st)@.peers[p.node_id@].link)
                } else {
                    None
                })
            },
        },
{
    let ghost s = st@;
    let ghost p0 = p;
    let mut was_alive = false;
    let mut replaced: Option<u64> = None;
    if let Some(old) = st.peers.get(p.node_id.as_str()) {
        if old.alive {
            let new_dialer = if p.outbound {
                st.node_id.as_str()
            } else {
                p.node_id.as_str()
            };
            let old_dialer = if old.outbound {
                st.node_id.as_str()
            } else {
                p.node_id.as_str()
            };
            if !sorts_before(new_dialer, old_dialer) {
                return Linked::Refused;
            }
            was_alive = true;
            replaced = Some(old.link);
        }
    }
    let gone = find_superseded(st, p.node_id.as_str(), &p.addrs);
    let ghost gv = texts(gone@);
    let PeerIdent {
        node_id,
        outbound,
        node_ip,
        link_ip,
        addrs,
        addr_tags,
        addr_ifaces,
        control_port,
        http_port,
    } = p;
    let (probe_pairs, last_status) = match st.peers.remove(node_id.as_str()) {
        Some(old) => (old.probe_pairs, old.last_status),
        None => {
            let none: Dict<Dict<PairProbe>> = Dict::new();
            proof {
                assert(none.deep_view() =~= Map::<Seq<char>, Map<Seq<char>, PairV>>::empty());
            }
            (none, Json::Null)
        },
    };
    drop_keys(&mut st.peers, &gone);
    let row = PeerInfo {
        node_id: node_id.clone(),
        outbound,
        node_ip,
        link_ip,
        addrs,
        addr_tags,
        addr_ifaces,
        probe_pairs,
        control_port,
        http_port,
        link,
        alive: true,
        last_seen_ms: now,
        dead_since_ms: 0,
        stale: false,
        last_status,
    };
    let ghost rv = row.deep_view();
    proof {
        assert(rv == linked_row(s, p0, link, now));
    }
    let detail = row.node_ip.clone();
    let mut patch: Vec<Patch> = Vec::new();
    push_peers_gone(&mut patch, &gone);
    let ghost had = patch@;
    let q = peer_patch(node_id.as_str(), Some(peer_row(&row)));
    let ghost qv = q.deep_view();
    patch.push(q);
    proof {
        assert(patch_views(had) =~= peers_gone(gv));
        assert(patch_views(patch@) =~= peers_gone(gv).push(qv));
    }
    let ghost id = node_id@;
    st.peers.insert(node_id, row);
    proof {
        assert(st@.peers =~= s.peers.remove_keys(gv.to_set()).insert(id, rv));
    }
    if !was_alive {
        st.emit_patch("node_join", patch, detail.as_str());
    }
    Linked::Kept { replaced }
}

/// Two daemons with a link between them, and a second one dialed by the other
/// end of it, decide alike which of the two goes.
pub proof fn law_both_ends_keep_one_link(a: StateV, b: StateV, second_by_a: bool)
    requires
        a.node_id != b.node_id,
        peer_alive(a, b.node_id),
        peer_alive(b, a.node_id),
        // One end dialed the link that is there, and so the other accepted it.
        a.peers[b.node_id].outbound != b.peers[a.node_id].outbound,
    ensures
        link_refused(a, b.node_id, second_by_a) == link_refused(b, a.node_id, !second_by_a),
{
}

// ---------------------------------------------------------------------------
// What a peer sends
// ---------------------------------------------------------------------------
/// A peer's row after it pushed its snapshot: the addresses in it are the ones
/// it has now.
pub open spec fn pushed_row(p: PeerV, data: JsonV, now: u64) -> PeerV {
    let addrs = strings_of(data.field("addrs"@).items());
    PeerV {
        addrs: if addrs.len() > 0 {
            addrs
        } else {
            p.addrs
        },
        addr_tags: match data.field("addr_tags"@) {
            JsonV::Obj(m) => Map::new(
                |k: Seq<char>| m.contains_key(k),
                |k: Seq<char>| strings_of(m[k].items()),
            ),
            _ => p.addr_tags,
        },
        addr_ifaces: match data.field("addr_ifaces"@) {
            JsonV::Obj(m) => Map::new(
                |k: Seq<char>| m.contains_key(k) && m[k] is Str,
                |k: Seq<char>| m[k].text_or_empty(),
            ),
            _ => p.addr_ifaces,
        },
        last_status: data,
        last_seen_ms: now,
        stale: false,
        ..p
    }
}

fn read_tags(m: &Dict<Json>) -> (r: Dict<Vec<String>>)
    ensures
        r.deep_view() == Map::new(
            |k: Seq<char>| m.deep_view().contains_key(k),
            |k: Seq<char>| strings_of(m.deep_view()[k].items()),
        ),
{
    let mut vals: Vec<Vec<String>> = Vec::new();
    let n: usize = m.len();
    let mut i: usize = 0;
    while i < n
        invariant
            i <= n,
            n == m.order().len(),
            vals@.len() == i,
            forall|j: int|
                0 <= j < i ==> texts((#[trigger] vals@[j])@) == strings_of(
                    m@[m.order()[j]].v().items(),
                ),
        decreases n - i,
    {
        vals.push(str_list(m.val_at(i)));
        i += 1;
    }
    let out = m.with_values(vals);
    proof {
        let want = Map::new(
            |k: Seq<char>| m.deep_view().contains_key(k),
            |k: Seq<char>| strings_of(m.deep_view()[k].items()),
        );
        assert forall|k: Seq<char>| m@.contains_key(k) implies out@[k].deep_view() == strings_of(
            m@[k].v().items(),
        ) by {
            assert(m@.dom().contains(k));
            let j = m.order().index_of(k);
            assert(m.order()[j] == k);
            assert(texts(vals@[j]@) == strings_of(m@[m.order()[j]].v().items()));
            assert(texts(out@[k]@) =~= out@[k].deep_view());
        }
        assert(out.deep_view() =~= want);
    }
    out
}

fn read_ifaces(m: &Dict<Json>) -> (r: Dict<String>)
    ensures
        r.deep_view() == Map::new(
            |k: Seq<char>| m.deep_view().contains_key(k) && m.deep_view()[k] is Str,
            |k: Seq<char>| m.deep_view()[k].text_or_empty(),
        ),
{
    let ghost mv = m.deep_view();
    let ghost want = Map::new(
        |k: Seq<char>| mv.contains_key(k) && mv[k] is Str,
        |k: Seq<char>| mv[k].text_or_empty(),
    );
    let mut out: Dict<String> = Dict::new();
    let n: usize = m.len();
    let ghost order = m.order();
    let mut i: usize = 0;
    while i < n
        invariant
            i <= n,
            n == order.len(),
            order == m.order(),
            lists(order, m@.dom()),
            mv == m.deep_view(),
            want == Map::new(
                |k: Seq<char>| mv.contains_key(k) && mv[k] is Str,
                |k: Seq<char>| mv[k].text_or_empty(),
            ),
            forall|k: Seq<char>| #[trigger]
                out@.contains_key(k) <==> order.take(i as int).contains(k) && want.contains_key(k),
            forall|k: Seq<char>| #[trigger] out@.contains_key(k) ==> out@[k]@ == want[k],
        decreases n - i,
    {
        let j = m.val_at(i);
        let ghost key = order[i as int];
        let ghost had = out@;
        proof {
            assert(mv[key] == j.v());
            assert(mv.contains_key(key));
        }
        if let Some(s) = j.as_str() {
            out.insert(m.key_at(i).clone(), s.to_string());
            proof {
                assert(want.contains_key(key));
            }
        }
        proof {
            assert forall|k: Seq<char>| #[trigger]
                out@.contains_key(k) <==> order.take(i + 1).contains(k) && want.contains_key(k) by {
                crate::common::dict::lemma_take_contains(order, i as int, k);
                assert(had.contains_key(k) <==> order.take(i as int).contains(k)
                    && want.contains_key(k));
            }
        }
        i += 1;
    }
    proof {
        assert(order.take(order.len() as int) =~= order);
        assert forall|k: Seq<char>| #[trigger]
            out.deep_view().contains_key(k) == want.contains_key(k) by {
            if want.contains_key(k) {
                assert(m@.dom().contains(k));
                assert(out@.contains_key(k));
            }
        }
        assert(out.deep_view() =~= want);
    }
    out
}

/// The state after a peer pushed its snapshot.
pub open spec fn status_pushed(s: StateV, id: Seq<char>, data: JsonV, now: u64) -> StateV {
    if s.peers.contains_key(id) {
        StateV { peers: s.peers.insert(id, pushed_row(s.peers[id], data, now)), ..s }
    } else {
        s
    }
}

/// A peer pushed its snapshot, which doubles as a heartbeat.
pub fn peer_status(st: &mut State, id: &str, data: Json, now: u64)
    ensures
        final(st)@ == status_pushed(old(st)@, id@, data.v(), now),
{
    let ghost s = st@;
    let ghost dv = data.v();
    if !st.peers.contains(id) {
        return ;
    }
    let addrs = str_list_at(&data, "addrs");
    let tags = match data.fields_at("addr_tags") {
        Some(m) => Some(read_tags(m)),
        None => None,
    };
    let ifaces = match data.fields_at("addr_ifaces") {
        Some(m) => Some(read_ifaces(m)),
        None => None,
    };
    if let Some(p) = st.peers.get_mut(id) {
        if addrs.len() > 0 {
            p.addrs = addrs;
        }
        if let Some(t) = tags {
            p.addr_tags = t;
        }
        if let Some(t) = ifaces {
            p.addr_ifaces = t;
        }
        p.last_status = data;
        p.last_seen_ms = now;
        p.stale = false;
        proof {
            let want = pushed_row(s.peers[id@], dv, now);
            assert(p.deep_view().addr_tags =~= want.addr_tags);
            assert(p.deep_view().addr_ifaces =~= want.addr_ifaces);
            assert(p.deep_view() == want);
        }
    }
    proof {
        assert(st@.peers =~= s.peers.insert(id@, pushed_row(s.peers[id@], dv, now)));
    }
}

/// The state after a peer was heard from.
pub open spec fn heard(s: StateV, id: Seq<char>, now: u64) -> StateV {
    if s.peers.contains_key(id) {
        StateV { peers: s.peers.insert(id, PeerV { last_seen_ms: now, ..s.peers[id] }), ..s }
    } else {
        s
    }
}

/// A peer answered a ping.
pub fn peer_pong(st: &mut State, id: &str, now: u64)
    ensures
        final(st)@ == heard(old(st)@, id@, now),
{
    let ghost s = st@;
    if let Some(p) = st.peers.get_mut(id) {
        p.last_seen_ms = now;
    }
    proof {
        assert(st@.peers =~= heard(s, id@, now).peers);
        assert(st@ =~= heard(s, id@, now));
    }
}

/// A peer's row after its link went.
pub open spec fn left_row(p: PeerV, now: u64) -> PeerV {
    PeerV { alive: false, dead_since_ms: now, ..p }
}

/// The state after a peer left, for a reason.
pub open spec fn left(s: StateV, id: Seq<char>, now: u64, reason: Seq<char>) -> StateV {
    let p = left_row(s.peers[id], now);
    StateV { peers: s.peers.insert(id, p), ..s }.emit(
        "node_leave"@,
        seq![peer_patch_of(id, Some(peer_row_of(p)))],
        reason,
    )
}

/// The state after a peer's connection closed. One that is not the peer's
/// current link, or whose peer is gone already, changes nothing.
pub open spec fn peer_link_closed(s: StateV, id: Seq<char>, link: u64, now: u64) -> StateV {
    if peer_alive(s, id) && s.peers[id].link == link {
        left(s, id, now, "link closed"@)
    } else {
        s
    }
}

/// A peer's connection closed.
pub fn peer_lost(st: &mut State, id: &str, link: u64, now: u64)
    ensures
        final(st)@ == peer_link_closed(old(st)@, id@, link, now),
{
    let ghost s = st@;
    let owned = match st.peers.get(id) {
        Some(p) => p.alive && p.link == link,
        None => false,
    };
    if !owned {
        return ;
    }
    let ghost q = left_row(s.peers[id@], now);
    let mut patch: Vec<Patch> = Vec::new();
    if let Some(p) = st.peers.get_mut(id) {
        p.alive = false;
        p.dead_since_ms = now;
        proof {
            assert(p.deep_view() == q);
        }
        patch.push(peer_patch(id, Some(peer_row(p))));
    }
    proof {
        assert(st@.peers =~= s.peers.insert(id@, q));
        assert(patch_views(patch@) =~= seq![peer_patch_of(id@, Some(peer_row_of(q)))]);
    }
    st.emit_patch("node_leave", patch, "link closed");
}

// ---------------------------------------------------------------------------
// Staleness
// ---------------------------------------------------------------------------
/// Whether a live peer has been silent for too long.
pub open spec fn fell_silent(p: PeerV, now: u64, dead_after: u64) -> bool {
    p.alive && since(now, p.last_seen_ms) >= dead_after
}

/// A peer's row after its silence was looked at.
pub open spec fn aged_peer(p: PeerV, now: u64, stale_after: u64, dead_after: u64) -> PeerV {
    if fell_silent(p, now, dead_after) {
        left_row(p, now)
    } else if p.alive && since(now, p.last_seen_ms) >= stale_after {
        PeerV { stale: true, ..p }
    } else {
        p
    }
}

/// The peers after their silence was looked at.
pub open spec fn aged_peers(
    m: Map<Seq<char>, PeerV>,
    now: u64,
    stale_after: u64,
    dead_after: u64,
) -> Map<Seq<char>, PeerV> {
    Map::new(
        |k: Seq<char>| m.contains_key(k),
        |k: Seq<char>| aged_peer(m[k], now, stale_after, dead_after),
    )
}

/// The state after it is told that some peers left for their silence.
pub open spec fn told_left(s: StateV, ids: Seq<Seq<char>>) -> StateV
    decreases ids.len(),
{
    if ids.len() == 0 {
        s
    } else {
        let t = told_left(s, ids.drop_last());
        t.emit(
            "node_leave"@,
            seq![peer_patch_of(ids.last(), Some(peer_row_of(t.peers[ids.last()])))],
            "stale"@,
        )
    }
}

/// The dead peers whose rows are old enough to go.
pub open spec fn forgettable(s: StateV, now: u64, keep: u64) -> Seq<Seq<char>> {
    those(
        ordered(s.peers.dom()),
        |k: Seq<char>| !s.peers[k].alive && since(now, s.peers[k].dead_since_ms) > keep,
    )
}

/// The state after some peers were forgotten.
pub open spec fn forgotten(s: StateV, ids: Seq<Seq<char>>, keep: u64) -> StateV {
    if ids.len() == 0 {
        s
    } else {
        StateV { peers: s.peers.remove_keys(ids.to_set()), ..s }.emit(
            "peer_forgotten"@,
            peers_gone(ids),
            "kept "@ + decimal(keep as nat) + " ms"@,
        )
    }
}

/// The state after one look at the peers: those silent for long are stale,
/// those silent for longer have left, and those that left long ago are
/// forgotten. Their connectors keep dialing.
pub open spec fn peers_swept(
    s: StateV,
    now: u64,
    stale_after: u64,
    dead_after: u64,
    keep: u64,
) -> StateV {
    let t = StateV { peers: aged_peers(s.peers, now, stale_after, dead_after), ..s };
    let u = told_left(
        t,
        those(ordered(s.peers.dom()), |k: Seq<char>| fell_silent(s.peers[k], now, dead_after)),
    );
    forgotten(u, forgettable(u, now, keep), keep)
}

proof fn lemma_told_left_peers(s: StateV, ids: Seq<Seq<char>>)
    ensures
        told_left(s, ids).peers == s.peers,
    decreases ids.len(),
{
    if ids.len() > 0 {
        lemma_told_left_peers(s, ids.drop_last());
    }
}

/// One look at the peers. A peer that stops sending is stale after a while and
/// gone after a longer one, which covers wedged-but-connected peers that a
/// clean end of input would never report. Lists the links to close.
pub fn sweep_peers(st: &mut State, now: u64, stale_after: u64, dead_after: u64, keep: u64) -> (r: Vec<
    u64,
>)
    ensures
        final(st)@ == peers_swept(old(st)@, now, stale_after, dead_after, keep),
        ({
            let ids = those(
                ordered(old(st)@.peers.dom()),
                |k: Seq<char>| fell_silent(old(st)@.peers[k], now, dead_after),
            );
            r@ == Seq::new(ids.len(), |i: int| old(st)@.peers[ids[i]].link)
        }),
{
    let ghost s = st@;
    let ghost was = st.peers@;
    let n: usize = st.peers.len();
    let ghost order = st.peers.order();
    let mut ids: Vec<String> = Vec::new();
    let mut links: Vec<u64> = Vec::new();
    let mut i: usize = 0;
    proof {
        assert(s.peers.dom() =~= was.dom());
        assert(texts(ids@) =~= Seq::<Seq<char>>::empty());
    }
    while i < n
        invariant
            i <= n,
            n == order.len(),
            order == st.peers.order(),
            lists(order, was.dom()),
            st@ == (StateV { peers: st@.peers, ..s }),
            st.peers@.dom() == was.dom(),
            s.peers.dom() == was.dom(),
            forall|k: Seq<char>| #[trigger]
                was.contains_key(k) ==> s.peers[k] == was[k].deep_view(),
            forall|j: int|
                0 <= j < i ==> st.peers@[#[trigger] order[j]].deep_view() == aged_peer(
                    s.peers[order[j]],
                    now,
                    stale_after,
                    dead_after,
                ),
            forall|j: int| i <= j < n ==> st.peers@[#[trigger] order[j]] == was[order[j]],
            texts(ids@) == those(
                order.take(i as int),
                |k: Seq<char>| fell_silent(s.peers[k], now, dead_after),
            ),
            links@.len() == ids@.len(),
            forall|j: int|
                0 <= j < ids@.len() ==> #[trigger] links@[j] == s.peers[texts(ids@)[j]].link,
            forall|j: int| 0 <= j < ids@.len() ==> s.peers.contains_key((#[trigger] ids@[j])@),
        decreases n - i,
    {
        let ghost mid = st.peers@;
        let ghost key = order[i as int];
        proof {
            assert(order.contains(key));
            assert(was.dom().contains(key));
            assert(s.peers.dom().contains(key));
            assert(order.take(i + 1).drop_last() =~= order.take(i as int));
            assert(order.take(i + 1).last() == key);
        }
        let name = st.peers.key_at(i).clone();
        let p = st.peers.val_at_mut(i);
        let silent: u64 = elapsed(now, p.last_seen_ms);
        let gone = p.alive && silent >= dead_after;
        let link: u64 = p.link;
        if gone {
            p.alive = false;
            p.dead_since_ms = now;
        } else if p.alive && silent >= stale_after {
            p.stale = true;
        }
        if gone {
            let ghost had = ids@;
            let ghost had_links = links@;
            ids.push(name);
            links.push(link);
            proof {
                assert(texts(ids@) =~= texts(had).push(key));
                assert forall|j: int| 0 <= j < ids@.len() implies #[trigger] links@[j]
                    == s.peers[texts(ids@)[j]].link by {
                    if j < had.len() {
                        assert(links@[j] == had_links[j]);
                        assert(texts(had)[j] == texts(ids@)[j]);
                    }
                }
            }
        }
        proof {
            assert(st.peers@.dom() =~= was.dom());
            assert forall|j: int| 0 <= j < n && j != i implies st.peers@[#[trigger] order[j]]
                == mid[order[j]] by {
                if order[j] == key {
                    lemma_increasing_distinct(order, i as int, j);
                }
            }
        }
        i += 1;
    }
    let ghost t = StateV { peers: aged_peers(s.peers, now, stale_after, dead_after), ..s };
    proof {
        assert(order.take(order.len() as int) =~= order);
        assert forall|k: Seq<char>| #[trigger] t.peers.contains_key(k) implies st@.peers[k]
            == t.peers[k] by {
            assert(was.dom().contains(k));
            let j = order.index_of(k);
            assert(order[j] == k);
        }
        assert(st@.peers =~= t.peers);
        assert(st@ == t);
        assert(links@ =~= Seq::new(ids@.len(), |i: int| s.peers[texts(ids@)[i]].link));
    }
    let ghost all = texts(ids@);
    let mut k: usize = 0;
    while k < ids.len()
        invariant
            k <= ids@.len(),
            all == texts(ids@),
            forall|j: int| 0 <= j < ids@.len() ==> t.peers.contains_key((#[trigger] ids@[j])@),
            st@ == told_left(t, all.take(k as int)),
        decreases ids@.len() - k,
    {
        let ghost u = st@;
        proof {
            assert(all.take(k + 1).drop_last() =~= all.take(k as int));
            assert(all.take(k + 1).last() == ids@[k as int]@);
            lemma_told_left_peers(t, all.take(k as int));
            assert(t.peers.contains_key(ids@[k as int]@));
        }
        let mut patch: Vec<Patch> = Vec::new();
        if let Some(p) = st.peers.get(ids[k].as_str()) {
            patch.push(peer_patch(ids[k].as_str(), Some(peer_row(p))));
            proof {
                assert(p.deep_view() == u.peers[ids@[k as int]@]);
                assert(patch_views(patch@) =~= seq![
                    peer_patch_of(ids@[k as int]@, Some(peer_row_of(u.peers[ids@[k as int]@]))),
                ]);
            }
        }
        st.emit_patch("node_leave", patch, "stale");
        k += 1;
    }
    proof {
        assert(all.take(all.len() as int) =~= all);
    }
    forget_peers(st, now, keep);
    links
}

fn forget_peers(st: &mut State, now: u64, keep: u64)
    ensures
        final(st)@ == forgotten(old(st)@, forgettable(old(st)@, now, keep), keep),
{
    let ghost s = st@;
    let n: usize = st.peers.len();
    let ghost order = st.peers.order();
    let mut ids: Vec<String> = Vec::new();
    let mut i: usize = 0;
    proof {
        assert(s.peers.dom() =~= st.peers@.dom());
        assert(texts(ids@) =~= Seq::<Seq<char>>::empty());
    }
    while i < n
        invariant
            i <= n,
            n == order.len(),
            order == st.peers.order(),
            s == st@,
            texts(ids@) == those(
                order.take(i as int),
                |k: Seq<char>| !s.peers[k].alive && since(now, s.peers[k].dead_since_ms) > keep,
            ),
        decreases n - i,
    {
        let p = st.peers.val_at(i);
        proof {
            assert(order.take(i + 1).drop_last() =~= order.take(i as int));
            assert(order.take(i + 1).last() == order[i as int]);
            assert(s.peers[order[i as int]] == p.deep_view());
        }
        if !p.alive && elapsed(now, p.dead_since_ms) > keep {
            let ghost had = ids@;
            ids.push(st.peers.key_at(i).clone());
            proof {
                assert(texts(ids@) =~= texts(had).push(order[i as int]));
            }
        }
        i += 1;
    }
    proof {
        assert(order.take(order.len() as int) =~= order);
    }
    if ids.len() == 0 {
        return ;
    }
    let mut patch: Vec<Patch> = Vec::new();
    push_peers_gone(&mut patch, &ids);
    proof {
        assert(patch_views(patch@) =~= peers_gone(texts(ids@)));
    }
    drop_keys(&mut st.peers, &ids);
    proof {
        assert(st@.peers =~= s.peers.remove_keys(texts(ids@).to_set()));
    }
    let mut detail = "kept ".to_string();
    detail.append(dec(keep).as_str());
    detail.append(" ms");
    st.emit_patch("peer_forgotten", patch, detail.as_str());
}

} // verus!
