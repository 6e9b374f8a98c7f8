//! Which box an address belongs to.

use vstd::prelude::*;
use vstd::string::*;
use vstd::utf8::*;

use crate::common::bytes::text_exact;
use crate::common::dict::ordered;
use crate::common::text::{
    chars_of, dec, decimal, hex_digit, lemma_bytes_injective, listed, opt_text, same, strip_prefix, texts,
};
use crate::daemon::state::{is_loopback, loopback, AgentV, PeerV, State, StateV};

verus! {

// ---------------------------------------------------------------------------
// Node ids
// ---------------------------------------------------------------------------
/// Bytes in hexadecimal.
pub open spec fn hex(b: Seq<u8>) -> Seq<char>
    decreases b.len(),
{
    if b.len() == 0 {
        Seq::empty()
    } else {
        hex(b.drop_last()).push(hex_digit((b.last() / 16) as u8)).push(
            hex_digit((b.last() % 16) as u8),
        )
    }
}

/// The id of the node an address names: the bytes of `mentat:` and the
/// address, in hexadecimal.
pub open spec fn node_id_of(ip: Seq<char>) -> Seq<char> {
    hex(encode_utf8("mentat:"@ + ip))
}

fn push_hex(s: &mut String, n: u8)
    requires
        n < 16,
    ensures
        final(s)@ == old(s)@.push(hex_digit(n)),
{
    if n < 10 {
        s.push((48 + n) as char);
    } else {
        s.push((87 + n) as char);
    }
}

/// The id of the node an address names.
pub fn node_id_for(ip: &str) -> (r: String)
    ensures
        r@ == node_id_of(ip@),
{
    let mut name = "mentat:".to_string();
    name.append(ip);
    let bytes = name.as_str().as_bytes();
    let mut out = String::new();
    let mut i: usize = 0;
    proof {
        assert(out@ =~= Seq::<char>::empty());
    }
    while i < bytes.len()
        invariant
            i <= bytes@.len(),
            out@ == hex(bytes@.take(i as int)),
        decreases bytes@.len() - i,
    {
        let b = bytes[i];
        proof {
            assert(bytes@.take(i + 1).drop_last() =~= bytes@.take(i as int));
            assert(bytes@.take(i + 1).last() == b);
        }
        push_hex(&mut out, b / 16);
        push_hex(&mut out, b % 16);
        i += 1;
    }
    proof {
        assert(bytes@.take(bytes@.len() as int) =~= bytes@);
    }
    out
}

proof fn lemma_hex_digit(a: u8, b: u8)
    requires
        a < 16,
        b < 16,
        hex_digit(a) == hex_digit(b),
    ensures
        a == b,
{
    let (x, y) = (hex_digit(a) as u32, hex_digit(b) as u32);
    assert(x == if a < 10 {
        48 + a as u32
    } else {
        87 + a as u32
    });
    assert(y == if b < 10 {
        48 + b as u32
    } else {
        87 + b as u32
    });
}

proof fn lemma_hex_injective(a: Seq<u8>, b: Seq<u8>)
    requires
        hex(a) == hex(b),
    ensures
        a == b,
    decreases a.len(),
{
    lemma_hex_len(a);
    lemma_hex_len(b);
    if a.len() > 0 {
        let (x, y) = (hex(a), hex(b));
        let (p, q) = (hex(a.drop_last()), hex(b.drop_last()));
        lemma_hex_len(a.drop_last());
        lemma_hex_len(b.drop_last());
        assert(x.take(p.len() as int) =~= p);
        assert(y.take(q.len() as int) =~= q);
        assert(p == q);
        lemma_hex_injective(a.drop_last(), b.drop_last());
        let n = x.len() as int;
        assert(x[n - 1] == y[n - 1]);
        assert(x[n - 2] == y[n - 2]);
        lemma_hex_digit((a.last() % 16) as u8, (b.last() % 16) as u8);
        lemma_hex_digit((a.last() / 16) as u8, (b.last() / 16) as u8);
        assert(a.last() == b.last());
        assert(a =~= a.drop_last().push(a.last()));
        assert(b =~= b.drop_last().push(b.last()));
    } else {
        assert(a =~= b);
    }
}

proof fn lemma_hex_len(a: Seq<u8>)
    ensures
        hex(a).len() == 2 * a.len(),
    decreases a.len(),
{
    if a.len() > 0 {
        lemma_hex_len(a.drop_last());
    }
}

/// Different addresses name different nodes.
pub proof fn law_a_node_id_names_one_address(a: Seq<char>, b: Seq<char>)
    requires
        node_id_of(a) == node_id_of(b),
    ensures
        a == b,
{
    let m = "mentat:"@;
    lemma_hex_injective(encode_utf8(m + a), encode_utf8(m + b));
    lemma_bytes_injective(m + a, m + b);
    assert((m + a).skip(m.len() as int) =~= a);
    assert((m + b).skip(m.len() as int) =~= b);
}

/// The address a node id names, where it names one.
pub open spec fn node_address(id: Seq<char>) -> Option<Seq<char>> {
    if exists|ip: Seq<char>| node_id_of(ip) == id {
        Some(choose|ip: Seq<char>| node_id_of(ip) == id)
    } else {
        None
    }
}

fn hex_byte(c: char) -> (r: Option<u8>)
    ensures
        match r {
            Some(n) => n < 16 && hex_digit(n) == c,
            None => forall|n: u8| n < 16 ==> hex_digit(n) != c,
        },
{
    let u: u32 = c as u32;
    if 48 <= u && u <= 57 {
        Some((u - 48) as u8)
    } else if 97 <= u && u <= 102 {
        Some((u - 87) as u8)
    } else {
        proof {
            assert forall|n: u8| n < 16 implies hex_digit(n) != c by {
                let x = hex_digit(n) as u32;
                assert(x == if n < 10 {
                    48 + n as u32
                } else {
                    87 + n as u32
                });
            }
        }
        None
    }
}

proof fn lemma_hex_at(b: Seq<u8>, i: int)
    requires
        0 <= i < b.len(),
    ensures
        hex(b).len() == 2 * b.len(),
        hex(b)[2 * i] == hex_digit((b[i] / 16) as u8),
        hex(b)[2 * i + 1] == hex_digit((b[i] % 16) as u8),
    decreases b.len(),
{
    lemma_hex_len(b);
    lemma_hex_len(b.drop_last());
    if i < b.len() - 1 {
        lemma_hex_at(b.drop_last(), i);
    }
}

fn unhex(s: &str) -> (r: Option<Vec<u8>>)
    ensures
        match r {
            Some(b) => hex(b@) == s@,
            None => forall|b: Seq<u8>| hex(b) != s@,
        },
{
    let cs = chars_of(s);
    if cs.len() % 2 == 1 {
        proof {
            assert forall|b: Seq<u8>| hex(b) != s@ by {
                lemma_hex_len(b);
            }
        }
        return None;
    }
    let mut out: Vec<u8> = Vec::new();
    let mut i: usize = 0;
    proof {
        assert(hex(out@) =~= s@.take(0));
    }
    while i < cs.len()
        invariant
            i <= cs@.len(),
            cs@ == s@,
            cs@.len() % 2 == 0,
            i % 2 == 0,
            out@.len() * 2 == i,
            hex(out@) == s@.take(i as int),
        decreases cs@.len() - i,
    {
        let (a, b) = match (hex_byte(cs[i]), hex_byte(cs[i + 1])) {
            (Some(a), Some(b)) => (a, b),
            _ => {
                proof {
                    assert forall|w: Seq<u8>| hex(w) != s@ by {
                        if hex(w) == s@ {
                            lemma_hex_len(w);
                            let k = i as int / 2;
                            lemma_hex_at(w, k);
                            assert(2 * k == i);
                        }
                    }
                }
                return None;
            },
        };
        let ghost was = out@;
        out.push(a * 16 + b);
        proof {
            assert(out@.drop_last() =~= was);
            let x = (a * 16 + b) as u8;
            assert((x / 16) as u8 == a && (x % 16) as u8 == b);
            assert(hex(out@) =~= s@.take(i + 2));
        }
        i += 2;
    }
    proof {
        assert(s@.take(s@.len() as int) =~= s@);
    }
    Some(out)
}

/// The address a node id names, where it names one.
pub fn node_ip_of(id: &str) -> (r: Option<String>)
    ensures
        opt_text(r) == node_address(id@),
{
    let b = match unhex(id) {
        Some(b) => b,
        None => return None,
    };
    let ghost bv = b@;
    proof {
        assert forall|ip: Seq<char>| node_id_of(ip) == id@ implies bv == encode_utf8(
            "mentat:"@ + ip,
        ) by {
            lemma_hex_injective(bv, encode_utf8("mentat:"@ + ip));
        }
    }
    let t = match text_exact(b) {
        Some(t) => t,
        None => {
            proof {
                assert forall|ip: Seq<char>| node_id_of(ip) != id@ by {
                    encode_utf8_valid_utf8("mentat:"@ + ip);
                }
            }
            return None;
        },
    };
    proof {
        decode_utf8_encode_utf8(bv);
        assert forall|ip: Seq<char>| node_id_of(ip) == id@ implies t@ == "mentat:"@ + ip by {
            encode_utf8_decode_utf8("mentat:"@ + ip);
        }
    }
    match strip_prefix(t.as_str(), "mentat:") {
        Some(ip) => {
            proof {
                assert("mentat:"@ + ip@ =~= t@);
                assert(node_id_of(ip@) == id@);
                law_a_node_id_names_one_address(
                    ip@,
                    choose|x: Seq<char>| node_id_of(x) == id@,
                );
            }
            Some(ip.to_string())
        },
        None => {
            proof {
                assert forall|ip: Seq<char>| node_id_of(ip) != id@ by {
                    if node_id_of(ip) == id@ {
                        assert(("mentat:"@ + ip).take("mentat:"@.len() as int) =~= "mentat:"@);
                    }
                }
            }
            None
        },
    }
}

/// Whether a daemon may run under an address: it has one, beyond white space.
/// A daemon with no identity has the same node id as every other one.
pub open spec fn has_identity(node_ip: Seq<char>) -> bool {
    crate::common::text::trimmed(node_ip).len() > 0
}

/// Whether a daemon may run under an address.
pub fn has_node_ip(node_ip: &str) -> (r: bool)
    ensures
        r == has_identity(node_ip@),
{
    !crate::common::text::trim(node_ip).is_empty()
}

/// The address a daemon is known by: what the environment says, unless that is
/// blank; else the address it would use to reach the world; else loopback.
pub fn default_node_ip(env: Option<&str>, toward: Option<&str>) -> (r: String)
    ensures
        r@ == (if env is Some && has_identity(env->Some_0@) {
            crate::common::text::trimmed(env->Some_0@)
        } else if toward is Some {
            toward->Some_0@
        } else {
            "127.0.0.1"@
        }),
{
    if let Some(e) = env {
        let t = crate::common::text::trim(e);
        if !t.is_empty() {
            return t.to_string();
        }
    }
    match toward {
        Some(a) => a.to_string(),
        None => "127.0.0.1".to_string(),
    }
}

// ---------------------------------------------------------------------------
// Whose address it is
// ---------------------------------------------------------------------------
/// Whether a peer goes by an address.
pub open spec fn peer_has(p: PeerV, ip: Seq<char>) -> bool {
    p.node_ip == ip || p.addrs.contains(ip)
}

/// The first peer, in the order of `keys`, that goes by an address.
pub open spec fn peer_with(
    peers: Map<Seq<char>, PeerV>,
    ip: Seq<char>,
    keys: Seq<Seq<char>>,
) -> Option<PeerV>
    decreases keys.len(),
{
    if keys.len() == 0 {
        None
    } else if peer_has(peers[keys[0]], ip) {
        Some(peers[keys[0]])
    } else {
        peer_with(peers, ip, keys.drop_first())
    }
}

/// The first agent, in the order of `keys`, that gave an address.
pub open spec fn agent_with(
    agents: Map<Seq<char>, AgentV>,
    ip: Seq<char>,
    keys: Seq<Seq<char>>,
) -> Option<AgentV>
    decreases keys.len(),
{
    if keys.len() == 0 {
        None
    } else if agents[keys[0]].node_ip == ip {
        Some(agents[keys[0]])
    } else {
        agent_with(agents, ip, keys.drop_first())
    }
}

/// The place of the first peer that goes by an address.
fn find_peer(st: &State, ip: &str) -> (r: Option<usize>)
    ensures
        match r {
            Some(i) => i < st.peers.order().len() && peer_with(
                st@.peers,
                ip@,
                ordered(st@.peers.dom()),
            ) == Some(st@.peers[st.peers.order()[i as int]]),
            None => peer_with(st@.peers, ip@, ordered(st@.peers.dom())) is None,
        },
{
    let n: usize = st.peers.len();
    let ghost order = st.peers.order();
    let mut i: usize = 0;
    proof {
        assert(st@.peers.dom() =~= st.peers@.dom());
        assert(order.skip(0) =~= order);
    }
    while i < n
        invariant
            i <= n,
            n == order.len(),
            order == st.peers.order(),
            order == ordered(st@.peers.dom()),
            peer_with(st@.peers, ip@, order) == peer_with(st@.peers, ip@, order.skip(i as int)),
        decreases n - i,
    {
        let p = st.peers.val_at(i);
        proof {
            assert(order.skip(i as int)[0] == order[i as int]);
            assert(order.skip(i as int).drop_first() =~= order.skip(i + 1));
            assert(st@.peers[order[i as int]] == p.deep_view());
        }
        if same(p.node_ip.as_str(), ip) || listed(&p.addrs, ip) {
            return Some(i);
        }
        i += 1;
    }
    None
}

/// The node a client connected from: this box for loopback or any address it
/// owns, then the mesh peer or registered agent that announces the address,
/// then a node of the address's own.
pub open spec fn client_node_of(s: StateV, ip: Seq<char>, mine: Seq<Seq<char>>) -> Seq<char> {
    if loopback(ip) || ip == s.node_ip || mine.contains(ip) {
        s.node_id
    } else {
        match peer_with(s.peers, ip, ordered(s.peers.dom())) {
            Some(p) => p.node_id,
            None => match agent_with(s.agents, ip, ordered(s.agents.dom())) {
                Some(a) => a.node_id,
                None => node_id_of(ip),
            },
        }
    }
}

/// The node a client connected from. `mine` lists every address of this box.
///
/// A driver arriving over the fabric would otherwise be filed away from its
/// own agents, and rank 0 would land away from the engine.
pub fn client_node(st: &State, ip: &str, mine: &Vec<String>) -> (r: String)
    ensures
        r@ == client_node_of(st@, ip@, texts(mine@)),
{
    if is_loopback(ip) || same(ip, st.node_ip.as_str()) || listed(mine, ip) {
        return st.node_id.clone();
    }
    if let Some(i) = find_peer(st, ip) {
        return st.peers.val_at(i).node_id.clone();
    }
    let n: usize = st.agents.len();
    let ghost order = st.agents.order();
    let mut i: usize = 0;
    proof {
        assert(st@.agents.dom() =~= st.agents@.dom());
        assert(order.skip(0) =~= order);
    }
    while i < n
        invariant
            i <= n,
            n == order.len(),
            order == st.agents.order(),
            order == ordered(st@.agents.dom()),
            !loopback(ip@),
            ip@ != st@.node_ip,
            !texts(mine@).contains(ip@),
            peer_with(st@.peers, ip@, ordered(st@.peers.dom())) is None,
            agent_with(st@.agents, ip@, order) == agent_with(
                st@.agents,
                ip@,
                order.skip(i as int),
            ),
        decreases n - i,
    {
        let a = st.agents.val_at(i);
        proof {
            assert(order.skip(i as int)[0] == order[i as int]);
            assert(order.skip(i as int).drop_first() =~= order.skip(i + 1));
            assert(st@.agents[order[i as int]] == a.deep_view());
        }
        if same(a.node_ip.as_str(), ip) {
            return a.node_id.clone();
        }
        i += 1;
    }
    node_id_for(ip)
}

/// The address and the id of the node an agent is on. One that claimed no
/// address is on the box it connected from: this one, or the mesh peer that
/// announces the source address, or a node named by the address itself.
pub open spec fn agent_node_of(
    s: StateV,
    claimed: Seq<char>,
    peer_ip: Seq<char>,
    mine: Seq<Seq<char>>,
) -> (Seq<char>, Seq<char>) {
    if claimed.len() > 0 {
        if claimed == s.node_ip {
            (claimed, s.node_id)
        } else {
            (claimed, node_id_of(claimed))
        }
    } else if loopback(peer_ip) || mine.contains(peer_ip) {
        (s.node_ip, s.node_id)
    } else {
        match peer_with(s.peers, peer_ip, ordered(s.peers.dom())) {
            Some(p) => (p.node_ip, p.node_id),
            None => (peer_ip, node_id_of(peer_ip)),
        }
    }
}

/// The address and the id of the node an agent is on.
pub fn agent_node(st: &State, claimed: &str, peer_ip: &str, mine: &Vec<String>) -> (r: (
    String,
    String,
))
    ensures
        (r.0@, r.1@) == agent_node_of(st@, claimed@, peer_ip@, texts(mine@)),
{
    if !claimed.is_empty() {
        if same(claimed, st.node_ip.as_str()) {
            return (claimed.to_string(), st.node_id.clone());
        }
        return (claimed.to_string(), node_id_for(claimed));
    }
    if is_loopback(peer_ip) || listed(mine, peer_ip) {
        return (st.node_ip.clone(), st.node_id.clone());
    }
    match find_peer(st, peer_ip) {
        Some(i) => {
            let p = st.peers.val_at(i);
            (p.node_ip.clone(), p.node_id.clone())
        },
        None => (peer_ip.to_string(), node_id_for(peer_ip)),
    }
}

// ---------------------------------------------------------------------------
// Misfiled agents
// ---------------------------------------------------------------------------
/// A box the mesh knows: its id, its name, its addresses.
#[derive(Debug)]
pub struct BoxInfo {
    pub id: String,
    pub name: String,
    pub addrs: Vec<String>,
}

/// A `BoxInfo` as a mathematical value.
pub struct BoxV {
    pub id: Seq<char>,
    pub name: Seq<char>,
    pub addrs: Seq<Seq<char>>,
}

impl View for BoxInfo {
    type V = BoxV;

    open spec fn view(&self) -> BoxV {
        BoxV { id: self.id@, name: self.name@, addrs: texts(self.addrs@) }
    }
}

/// Boxes as mathematical values.
pub open spec fn box_views(v: Seq<BoxInfo>) -> Seq<BoxV> {
    Seq::new(v.len(), |i: int| v[i]@)
}

/// The first box with an address.
pub open spec fn box_with(boxes: Seq<BoxV>, ip: Seq<char>) -> Option<BoxV>
    decreases boxes.len(),
{
    if boxes.len() == 0 {
        None
    } else if boxes[0].addrs.contains(ip) {
        Some(boxes[0])
    } else {
        box_with(boxes.drop_first(), ip)
    }
}

/// What is wrong with an agent that claims an address under a node id, if the
/// address is that of a box filed under another.
pub open spec fn misfiling(node_ip: Seq<char>, node_id: Seq<char>, boxes: Seq<BoxV>) -> Option<
    Seq<char>,
> {
    if node_ip.len() == 0 || loopback(node_ip) {
        None
    } else {
        match box_with(boxes, node_ip) {
            None => None,
            Some(b) => if b.id == node_id {
                None
            } else {
                Some(
                    "claimed "@ + node_ip + ", an address of "@ + b.name
                        + ", which this daemon knows as a different node. Its GPUs would join "@
                        + "no island and its group would take no fabric"@,
                )
            },
        }
    }
}

/// Whether an agent claimed an address the mesh files under another node.
///
/// A node id comes of an address, so a container told to call itself by its
/// LAN address registers a node distinct from the box it runs on. Its GPUs
/// land on a node no island contains, and the ranks talk over whichever link
/// the address named. That reads as a slow model rather than as a
/// misconfiguration.
pub fn misfiled(node_ip: &str, node_id: &str, boxes: &Vec<BoxInfo>) -> (r: Option<String>)
    ensures
        opt_text(r) == misfiling(node_ip@, node_id@, box_views(boxes@)),
{
    if node_ip.is_empty() || is_loopback(node_ip) {
        return None;
    }
    let ghost all = box_views(boxes@);
    let mut i: usize = 0;
    proof {
        assert(all.skip(0) =~= all);
    }
    while i < boxes.len()
        invariant
            i <= boxes@.len(),
            all == box_views(boxes@),
            node_ip@.len() > 0,
            !loopback(node_ip@),
            box_with(all, node_ip@) == box_with(all.skip(i as int), node_ip@),
        decreases boxes@.len() - i,
    {
        let b = &boxes[i];
        proof {
            assert(all.skip(i as int)[0] == b@);
            assert(all.skip(i as int).drop_first() =~= all.skip(i + 1));
        }
        if listed(&b.addrs, node_ip) {
            if same(b.id.as_str(), node_id) {
                return None;
            }
            let mut e = "claimed ".to_string();
            e.append(node_ip);
            e.append(", an address of ");
            e.append(b.name.as_str());
            e.append(", which this daemon knows as a different node. Its GPUs would join ");
            e.append("no island and its group would take no fabric");
            return Some(e);
        }
        i += 1;
    }
    None
}

/// The boxes a daemon knows: itself, and its live peers of `keys`.
pub open spec fn known_boxes(s: StateV, local: Seq<Seq<char>>, keys: Seq<Seq<char>>) -> Seq<BoxV>
    decreases keys.len(),
{
    if keys.len() == 0 {
        seq![BoxV { id: s.node_id, name: s.hostname, addrs: local }]
    } else {
        let had = known_boxes(s, local, keys.drop_last());
        let p = s.peers[keys.last()];
        if p.alive {
            had.push(BoxV { id: p.node_id, name: p.node_ip, addrs: p.addrs })
        } else {
            had
        }
    }
}

/// Whether an agent claimed an address that this daemon files under another
/// node. `local` lists the addresses this daemon announces.
pub fn misfiled_node(st: &State, node_ip: &str, node_id: &str, local: &Vec<String>) -> (r: Option<
    String,
>)
    ensures
        opt_text(r) == misfiling(
            node_ip@,
            node_id@,
            known_boxes(st@, texts(local@), ordered(st@.peers.dom())),
        ),
{
    let mut boxes: Vec<BoxInfo> = Vec::new();
    boxes.push(
        BoxInfo {
            id: st.node_id.clone(),
            name: st.hostname.clone(),
            addrs: crate::common::text::copied(local),
        },
    );
    let n: usize = st.peers.len();
    let ghost order = st.peers.order();
    let ghost lv = texts(local@);
    let mut i: usize = 0;
    proof {
        assert(st@.peers.dom() =~= st.peers@.dom());
        assert(box_views(boxes@) =~= known_boxes(st@, lv, order.take(0)));
    }
    while i < n
        invariant
            i <= n,
            n == order.len(),
            order == st.peers.order(),
            box_views(boxes@) == known_boxes(st@, lv, order.take(i as int)),
        decreases n - i,
    {
        let p = st.peers.val_at(i);
        proof {
            assert(order.take(i + 1).drop_last() =~= order.take(i as int));
            assert(order.take(i + 1).last() == order[i as int]);
            assert(st@.peers[order[i as int]] == p.deep_view());
        }
        if p.alive {
            let ghost was = boxes@;
            let b = BoxInfo {
                id: p.node_id.clone(),
                name: p.node_ip.clone(),
                addrs: crate::common::text::copied(&p.addrs),
            };
            let ghost bv = b@;
            boxes.push(b);
            proof {
                assert(box_views(boxes@) =~= box_views(was).push(bv));
            }
        }
        i += 1;
    }
    proof {
        assert(order.take(order.len() as int) =~= order);
    }
    misfiled(node_ip, node_id, &boxes)
}

// ---------------------------------------------------------------------------
// The head
// ---------------------------------------------------------------------------
/// Where a registration or driver session belongs.
#[derive(Debug)]
pub enum Head {
    /// With this daemon.
    Here,
    /// With another. Addresses to try, best first.
    At(Vec<String>),
    /// With a daemon that cannot be reached from here.
    Nowhere,
    /// Nobody knows yet.
    Unknown,
}

/// A `Head` as a mathematical value.
pub enum HeadV {
    Here,
    At(Seq<Seq<char>>),
    Nowhere,
    Unknown,
}

impl View for Head {
    type V = HeadV;

    open spec fn view(&self) -> HeadV {
        match self {
            Head::Here => HeadV::Here,
            Head::At(v) => HeadV::At(texts(v@)),
            Head::Nowhere => HeadV::Nowhere,
            Head::Unknown => HeadV::Unknown,
        }
    }
}

/// An address and a port.
pub open spec fn with_port(ip: Seq<char>, port: u16) -> Seq<char> {
    ip + ":"@ + decimal(port as nat)
}

/// A list without the entries that repeat the one before them.
pub open spec fn unrepeated(v: Seq<Seq<char>>) -> Seq<Seq<char>>
    decreases v.len(),
{
    if v.len() == 0 {
        Seq::empty()
    } else {
        let had = unrepeated(v.drop_last());
        if v.len() > 1 && v[v.len() - 2] == v.last() {
            had
        } else {
            had.push(v.last())
        }
    }
}

/// The addresses to try a peer at: the one its link held, then the one it
/// calls itself by, then the others it announces.
pub open spec fn peer_targets(p: PeerV) -> Seq<Seq<char>> {
    unrepeated(
        seq![with_port(p.link_ip, p.control_port), with_port(p.node_ip, p.control_port)]
            + Seq::new(p.addrs.len(), |i: int| with_port(p.addrs[i], p.control_port)),
    )
}

/// Where a registration or driver session belongs. Every group lives on the
/// head, so a container points at the daemon on its own box and still lands
/// with every other rank.
pub open spec fn head_of(s: StateV) -> HeadV {
    if s.head_node_id.len() == 0 {
        HeadV::Unknown
    } else if s.head_node_id == s.node_id {
        HeadV::Here
    } else if s.peers.contains_key(s.head_node_id) && s.peers[s.head_node_id].alive {
        HeadV::At(peer_targets(s.peers[s.head_node_id]))
    } else {
        HeadV::Nowhere
    }
}

fn target(ip: &str, port: u16) -> (r: String)
    ensures
        r@ == with_port(ip@, port),
{
    let mut t = ip.to_string();
    t.append(":");
    t.append(dec(port as u64).as_str());
    t
}

fn drop_repeats(v: Vec<String>) -> (r: Vec<String>)
    ensures
        texts(r@) == unrepeated(texts(v@)),
{
    let ghost all = texts(v@);
    let mut out: Vec<String> = Vec::new();
    let mut i: usize = 0;
    proof {
        assert(texts(out@) =~= Seq::<Seq<char>>::empty());
    }
    while i < v.len()
        invariant
            i <= v@.len(),
            all == texts(v@),
            texts(out@) == unrepeated(all.take(i as int)),
        decreases v@.len() - i,
    {
        let ghost t = all.take(i + 1);
        proof {
            assert(t.drop_last() =~= all.take(i as int));
            assert(t.last() == v@[i as int]@);
            if i > 0 {
                assert(t[t.len() - 2] == v@[i - 1]@);
            }
        }
        if !(i > 0 && same(v[i - 1].as_str(), v[i].as_str())) {
            let ghost was = out@;
            out.push(v[i].clone());
            proof {
                assert(texts(out@) =~= texts(was).push(v@[i as int]@));
            }
        }
        i += 1;
    }
    proof {
        assert(all.take(all.len() as int) =~= all);
    }
    out
}

/// Where a registration or driver session belongs. A connection that arrives
/// before the first election waits, and asks again.
pub fn head_for(st: &State) -> (r: Head)
    ensures
        r@ == head_of(st@),
{
    if st.head_node_id.as_str().is_empty() {
        return Head::Unknown;
    }
    if same(st.head_node_id.as_str(), st.node_id.as_str()) {
        return Head::Here;
    }
    match st.peers.get(st.head_node_id.as_str()) {
        Some(p) => {
            if !p.alive {
                return Head::Nowhere;
            }
            let port: u16 = p.control_port;
            let mut at: Vec<String> = Vec::new();
            at.push(target(p.link_ip.as_str(), port));
            at.push(target(p.node_ip.as_str(), port));
            let ghost pv = p.deep_view();
            let ghost want = seq![
                with_port(pv.link_ip, pv.control_port),
                with_port(pv.node_ip, pv.control_port),
            ] + Seq::new(pv.addrs.len(), |i: int| with_port(pv.addrs[i], pv.control_port));
            let mut i: usize = 0;
            while i < p.addrs.len()
                invariant
                    i <= p.addrs@.len(),
                    pv == p.deep_view(),
                    port == pv.control_port,
                    want == seq![
                        with_port(pv.link_ip, pv.control_port),
                        with_port(pv.node_ip, pv.control_port),
                    ] + Seq::new(
                        pv.addrs.len(),
                        |i: int| with_port(pv.addrs[i], pv.control_port),
                    ),
                    at@.len() == i + 2,
                    forall|j: int| 0 <= j < at@.len() ==> (#[trigger] at@[j])@ == want[j],
                decreases p.addrs@.len() - i,
            {
                at.push(target(p.addrs[i].as_str(), port));
                i += 1;
            }
            proof {
                assert(texts(at@) =~= want);
            }
            Head::At(drop_repeats(at))
        },
        None => Head::Nowhere,
    }
}

} // verus!
