//! A link to another daemon: what is said at its start, and what comes over it.

use vstd::prelude::*;
use vstd::string::*;

use crate::common::dict::{copy_texts, ordered, Dict};
use crate::common::ip::{parse_v4, v4_of};
use crate::common::json::{meaning, Json};
use crate::common::text::{copied, parse_unsigned, rsplit_once, same, split_last, texts, unsigned};
use crate::daemon::mesh::{heard, peer_pong, peer_status, status_pushed, PeerIdent};
use crate::daemon::probes::probe_answered;
use crate::daemon::state::{PeerV, State, StateV};
use crate::daemon::status::LocalAddrs;

verus! {

broadcast use meaning;

// ---------------------------------------------------------------------------
// Hellos
// ---------------------------------------------------------------------------
/// How a daemon introduces itself to another.
#[derive(Debug)]
pub struct PeerHello {
    pub node_id: String,
    pub node_ip: String,
    /// 0 where the daemon does not say.
    pub control_port: u16,
    pub http_port: u16,
    pub addrs: Vec<String>,
    pub addr_tags: Dict<Vec<String>>,
    pub addr_ifaces: Dict<String>,
}

/// A `PeerHello` as a mathematical value.
pub struct PeerHelloV {
    pub node_id: Seq<char>,
    pub node_ip: Seq<char>,
    pub control_port: u16,
    pub http_port: u16,
    pub addrs: Seq<Seq<char>>,
    pub addr_tags: Map<Seq<char>, Seq<Seq<char>>>,
    pub addr_ifaces: Map<Seq<char>, Seq<char>>,
}

impl View for PeerHello {
    type V = PeerHelloV;

    open spec fn view(&self) -> PeerHelloV {
        PeerHelloV {
            node_id: self.node_id@,
            node_ip: self.node_ip@,
            control_port: self.control_port,
            http_port: self.http_port,
            addrs: texts(self.addrs@),
            addr_tags: self.addr_tags.deep_view(),
            addr_ifaces: self.addr_ifaces.deep_view(),
        }
    }
}

fn copy_lists(d: &Dict<Vec<String>>) -> (r: Dict<Vec<String>>)
    ensures
        r.deep_view() == d.deep_view(),
{
    let n: usize = d.len();
    let ghost order = d.order();
    let mut vals: Vec<Vec<String>> = Vec::new();
    let mut i: usize = 0;
    while i < n
        invariant
            i <= n,
            n == order.len(),
            order == d.order(),
            vals@.len() == i,
            forall|j: int| 0 <= j < i ==> texts((#[trigger] vals@[j])@) == texts(d@[order[j]]@),
        decreases n - i,
    {
        vals.push(copied(d.val_at(i)));
        i += 1;
    }
    let ghost vs = vals@;
    let out = d.with_values(vals);
    proof {
        assert forall|k: Seq<char>| d@.contains_key(k) implies out@[k].deep_view()
            == d@[k].deep_view() by {
            assert(d@.dom().contains(k));
            assert(order.contains(k));
            let j = order.index_of(k);
            assert(order[j] == k);
            assert(texts(vs[j]@) == texts(d@[order[j]]@));
            assert(out@[k].deep_view() =~= texts(out@[k]@));
            assert(d@[k].deep_view() =~= texts(d@[k]@));
        }
        assert(out.deep_view() =~= d.deep_view());
    }
    out
}

/// How this daemon introduces itself.
pub fn my_hello(st: &State, control_port: u16, local: &LocalAddrs) -> (r: PeerHello)
    ensures
        r@ == (PeerHelloV {
            node_id: st@.node_id,
            node_ip: st@.node_ip,
            control_port,
            http_port: st@.http_port,
            addrs: local.deep_view().addrs,
            addr_tags: local.deep_view().addr_tags,
            addr_ifaces: local.deep_view().addr_ifaces,
        }),
{
    PeerHello {
        node_id: st.node_id.clone(),
        node_ip: st.node_ip.clone(),
        control_port,
        http_port: st.http_port,
        addrs: copied(&local.addrs),
        addr_tags: copy_lists(&local.addr_tags),
        addr_ifaces: copy_texts(&local.addr_ifaces),
    }
}

/// The host of a dialled address, and its port where it names one.
pub open spec fn dialled_parts(seed: Seq<char>) -> (Seq<char>, u16) {
    match split_last(seed, ':') {
        Some((h, p)) => (
            h,
            match unsigned(p) {
                Some(n) if n <= 65535 => n as u16,
                _ => 0,
            },
        ),
        None => (seed, 0),
    }
}

/// Who is at the other end of a link, as a mathematical value.
pub open spec fn ident_is(
    p: PeerIdent,
    h: PeerHelloV,
    outbound: bool,
    link_ip: Seq<char>,
    control_port: u16,
) -> bool {
    &&& p.node_id@ == h.node_id
    &&& p.outbound == outbound
    &&& p.node_ip@ == h.node_ip
    &&& p.link_ip@ == link_ip
    &&& texts(p.addrs@) == h.addrs
    &&& p.addr_tags.deep_view() == h.addr_tags
    &&& p.addr_ifaces.deep_view() == h.addr_ifaces
    &&& p.control_port == control_port
    &&& p.http_port == h.http_port
}

/// Who answered a link this daemon dialled: nobody new, where it reached itself.
/// A daemon that does not say its control port is known by the one dialled.
pub fn try_connect(st: &State, seed: &str, h: PeerHello) -> (r: Option<PeerIdent>)
    ensures
        match r {
            Some(p) => h@.node_id != st@.node_id && ident_is(
                p,
                h@,
                true,
                dialled_parts(seed@).0,
                if h.control_port == 0 {
                    dialled_parts(seed@).1
                } else {
                    h.control_port
                },
            ),
            None => h@.node_id == st@.node_id,
        },
{
    if same(h.node_id.as_str(), st.node_id.as_str()) {
        return None;
    }
    let (host, port): (String, u16) = match rsplit_once(seed, ':') {
        Some((host, p)) => (
            host.to_string(),
            match parse_unsigned(p, 65535) {
                Some(n) => n as u16,
                None => 0,
            },
        ),
        None => (seed.to_string(), 0),
    };
    let control_port: u16 = if h.control_port == 0 {
        port
    } else {
        h.control_port
    };
    Some(
        PeerIdent {
            node_id: h.node_id,
            outbound: true,
            node_ip: h.node_ip,
            link_ip: host,
            addrs: h.addrs,
            addr_tags: h.addr_tags,
            addr_ifaces: h.addr_ifaces,
            control_port,
            http_port: h.http_port,
        },
    )
}

/// Who opened a link to this daemon: nobody new, where it is this daemon itself.
pub fn accept_peer(st: &State, link_ip: &str, h: PeerHello) -> (r: Option<PeerIdent>)
    ensures
        match r {
            Some(p) => h@.node_id != st@.node_id && ident_is(
                p,
                h@,
                false,
                link_ip@,
                h.control_port,
            ),
            None => h@.node_id == st@.node_id,
        },
{
    if same(h.node_id.as_str(), st.node_id.as_str()) {
        return None;
    }
    Some(
        PeerIdent {
            node_id: h.node_id,
            outbound: false,
            node_ip: h.node_ip,
            link_ip: link_ip.to_string(),
            addrs: h.addrs,
            addr_tags: h.addr_tags,
            addr_ifaces: h.addr_ifaces,
            control_port: h.control_port,
            http_port: h.http_port,
        },
    )
}

/// Starts a connector for one control address, unless one is already running for
/// it. True where it has to be started.
pub fn dial(dialing: &mut Dict<()>, target: &str) -> (r: bool)
    ensures
        r == !old(dialing)@.contains_key(target@),
        final(dialing)@.dom() == old(dialing)@.dom().insert(target@),
{
    let ghost had = dialing@;
    if dialing.contains(target) {
        proof {
            assert(dialing@.dom() =~= had.dom().insert(target@));
        }
        return false;
    }
    dialing.insert(target.to_string(), ());
    proof {
        assert(dialing@.dom() =~= had.dom().insert(target@));
    }
    true
}

// ---------------------------------------------------------------------------
// Over the link
// ---------------------------------------------------------------------------
/// What a peer says.
#[derive(Debug)]
pub enum PeerMsg {
    Status { data: Json },
    Pong,
    /// A ping, an event to be passed on, or anything else: the state stays.
    Other,
}

/// The state after a peer's message.
pub open spec fn peer_said(s: StateV, id: Seq<char>, msg: PeerMsg, now: u64) -> StateV {
    match msg {
        PeerMsg::Status { data } => status_pushed(s, id, data.v(), now),
        PeerMsg::Pong => heard(s, id, now),
        PeerMsg::Other => s,
    }
}

/// Takes in what a peer says.
pub fn peer_loop(st: &mut State, id: &str, msg: PeerMsg, now: u64)
    ensures
        final(st)@ == peer_said(old(st)@, id@, msg, now),
{
    match msg {
        PeerMsg::Status { data } => peer_status(st, id, data, now),
        PeerMsg::Pong => peer_pong(st, id, now),
        PeerMsg::Other => {},
    }
}

/// The links of the live ones of some peers.
pub open spec fn links_of(peers: Map<Seq<char>, PeerV>, keys: Seq<Seq<char>>) -> Seq<u64>
    decreases keys.len(),
{
    if keys.len() == 0 {
        Seq::empty()
    } else {
        let had = links_of(peers, keys.drop_last());
        if peers[keys.last()].alive {
            had.push(peers[keys.last()].link)
        } else {
            had
        }
    }
}

/// Where the snapshot is pushed: the links of the live peers.
pub fn status_links(st: &State) -> (r: Vec<u64>)
    ensures
        r@ == links_of(st@.peers, ordered(st@.peers.dom())),
{
    let n: usize = st.peers.len();
    let ghost order = st.peers.order();
    let ghost m = st@.peers;
    let mut out: Vec<u64> = Vec::new();
    let mut i: usize = 0;
    proof {
        assert(m.dom() =~= st.peers@.dom());
        assert(order.take(0) =~= Seq::<Seq<char>>::empty());
    }
    while i < n
        invariant
            i <= n,
            n == order.len(),
            order == st.peers.order(),
            m == st@.peers,
            out@ == links_of(m, order.take(i as int)),
        decreases n - i,
    {
        let p = st.peers.val_at(i);
        proof {
            assert(order.take(i + 1).drop_last() =~= order.take(i as int));
            assert(order.take(i + 1).last() == order[i as int]);
            assert(m[order[i as int]] == p.deep_view());
        }
        if p.alive {
            out.push(p.link);
        }
        i += 1;
    }
    proof {
        assert(order.take(order.len() as int) =~= order);
    }
    out
}

// ---------------------------------------------------------------------------
// Probing a pair
// ---------------------------------------------------------------------------
/// The end points of a probe, where both are IPv4 addresses.
pub open spec fn probe_ends(near: Seq<char>, far: Seq<char>) -> Result<(u32, u32), Seq<char>> {
    match (v4_of(near), v4_of(far)) {
        (Some(a), Some(b)) => Ok((a, b)),
        (None, _) => Err(near + " is not an IPv4 address"@),
        (Some(_), None) => Err(far + " is not an IPv4 address"@),
    }
}

/// The end points of a probe: it leaves from one address of this box, which only
/// the address itself can pin, and both are of IPv4.
pub fn connect_from(near: &str, far: &str) -> (r: Result<(u32, u32), String>)
    ensures
        match r {
            Ok(x) => probe_ends(near@, far@) == Ok::<(u32, u32), Seq<char>>(x),
            Err(e) => probe_ends(near@, far@) == Err::<(u32, u32), Seq<char>>(e@),
        },
{
    match (parse_v4(near), parse_v4(far)) {
        (Some(a), Some(b)) => Ok((a, b)),
        (None, _) => {
            let mut e = near.to_string();
            e.append(" is not an IPv4 address");
            Err(e)
        },
        (Some(_), None) => {
            let mut e = far.to_string();
            e.append(" is not an IPv4 address");
            Err(e)
        },
    }
}

/// What came back of a probe.
#[derive(Debug)]
pub enum ProbeReply {
    /// The node that answered.
    Node { id: String },
    /// Something that is no answer, as a log shows it.
    Other { shown: String },
    /// Nothing: the link was closed.
    Closed,
}

/// Why a reply does not count, where it does not.
pub open spec fn reply_error(reply: ProbeReply, meant: Seq<char>) -> Option<Seq<char>> {
    match reply {
        ProbeReply::Node { id } => if id@ == meant {
            None
        } else {
            Some("node "@ + id@ + " answered, expected "@ + meant)
        },
        ProbeReply::Other { shown } => Some("unexpected probe reply: "@ + shown@),
        ProbeReply::Closed => Some("peer closed the connection before answering the probe"@),
    }
}

/// Whether a probe's reply counts: it came from the node that was meant.
pub fn probe_pair(reply: ProbeReply, meant: &str) -> (r: Result<(), String>)
    ensures
        match r {
            Ok(_) => reply_error(reply, meant@) is None,
            Err(e) => reply_error(reply, meant@) == Some(e@),
        },
{
    match reply {
        ProbeReply::Node { id } => probe_answered(id.as_str(), meant),
        ProbeReply::Other { shown } => {
            let mut e = "unexpected probe reply: ".to_string();
            e.append(shown.as_str());
            Err(e)
        },
        ProbeReply::Closed => Err(
            "peer closed the connection before answering the probe".to_string(),
        ),
    }
}

} // verus!
