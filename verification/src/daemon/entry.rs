//! A daemon's start, and what it makes of a connection's first frame.

use vstd::prelude::*;
use vstd::string::*;

use crate::common::dict::Dict;
use crate::common::text::{listed, texts, trim, trimmed};
use crate::daemon::claims::{plain_refusal, refused, Refusal, RefusalV};
use crate::daemon::ident::{node_id_for, node_id_of, Head, HeadV};
use crate::daemon::state::{is_loopback, loopback, Counters, Fabrics, State, StateV};

verus! {

/// How a daemon is started.
#[derive(Debug)]
pub struct DaemonOpts {
    pub port: u16,
    pub http_port: u16,
    pub node_ip: String,
    pub head_json: String,
    /// Control addresses of the other daemons.
    pub peers: Vec<String>,
}

/// The state of a daemon that just started.
pub open spec fn fresh_state(
    node_ip: Seq<char>,
    hostname: Seq<char>,
    control: Seq<char>,
    http_port: u16,
) -> StateV {
    StateV {
        node_id: node_id_of(node_ip),
        node_ip,
        hostname,
        control_addr: control,
        http_port,
        head_node_id: Seq::empty(),
        head_generation: 0,
        agents: Map::empty(),
        actors: Map::empty(),
        pgs: Map::empty(),
        clients: Map::empty(),
        claims: Map::empty(),
        refs: Map::empty(),
        peers: Map::empty(),
        islands: Seq::empty(),
        tagged: Set::empty(),
        counters: Counters {
            actors_spawned: 0,
            actor_exits_clean: 0,
            actor_exits_signal: 0,
            actor_exits_error: 0,
            calls_total: 0,
            clients_total: 0,
            agents_registered: 0,
            relayed: 0,
        },
        claim_generation: 0,
        next_ref: 0,
        next_seq: 0,
        misfiled_warned: Set::empty(),
        events: Seq::empty(),
    }
}

impl State {
    /// The state of a daemon that just started.
    pub fn new(node_ip: &str, hostname: &str, control: &str, http_port: u16) -> (r: State)
        ensures
            r@ == fresh_state(node_ip@, hostname@, control@, http_port),
    {
        let r = State {
            node_id: node_id_for(node_ip),
            node_ip: node_ip.to_string(),
            hostname: hostname.to_string(),
            control_addr: control.to_string(),
            http_port,
            head_node_id: String::new(),
            head_generation: 0,
            agents: Dict::new(),
            actors: Dict::new(),
            pgs: Dict::new(),
            clients: Dict::new(),
            claims: Dict::new(),
            refs: Dict::new(),
            peers: Dict::new(),
            fabrics: Fabrics { islands: Vec::new(), tagged: Dict::new() },
            counters: Counters {
                actors_spawned: 0,
                actor_exits_clean: 0,
                actor_exits_signal: 0,
                actor_exits_error: 0,
                calls_total: 0,
                clients_total: 0,
                agents_registered: 0,
                relayed: 0,
            },
            claim_generation: 0,
            next_ref: 0,
            next_seq: 0,
            misfiled_warned: Dict::new(),
            events: Vec::new(),
        };
        proof {
            let want = fresh_state(node_ip@, hostname@, control@, http_port);
            assert(r@.head_node_id =~= want.head_node_id);
            assert(r@.agents =~= want.agents);
            assert(r@.actors =~= want.actors);
            assert(r@.pgs =~= want.pgs);
            assert(r@.clients =~= want.clients);
            assert(r@.claims =~= want.claims);
            assert(r@.refs =~= want.refs);
            assert(r@.peers =~= want.peers);
            assert(r@.islands =~= want.islands);
            assert(r@.tagged =~= want.tagged);
            assert(r@.misfiled_warned =~= want.misfiled_warned);
            assert(r@.events =~= want.events);
        }
        r
    }
}

/// What a box is called: what it says, or `unknown` where it says nothing.
pub open spec fn host_name(said: Seq<char>) -> Seq<char> {
    if trimmed(said).len() == 0 {
        "unknown"@
    } else {
        trimmed(said)
    }
}

/// What a box is called: what it says, or `unknown` where it says nothing.
pub fn hostname(said: &str) -> (r: String)
    ensures
        r@ == host_name(said@),
{
    let t = trim(said);
    if t.is_empty() {
        "unknown".to_string()
    } else {
        t.to_string()
    }
}

/// A setting that is there: one that is exported with no value is not.
pub open spec fn set_to(v: Option<Seq<char>>) -> Option<Seq<char>> {
    match v {
        Some(s) if trimmed(s).len() > 0 => Some(s),
        _ => None,
    }
}

/// A setting that is there: one that is exported with no value is no request.
pub fn setting(v: Option<&str>) -> (r: Option<String>)
    ensures
        match r {
            Some(s) => set_to(
                match v {
                    Some(x) => Some(x@),
                    None => None,
                },
            ) == Some(s@),
            None => set_to(
                match v {
                    Some(x) => Some(x@),
                    None => None,
                },
            ) is None,
        },
{
    match v {
        Some(s) => if trim(s).is_empty() {
            None
        } else {
            Some(s.to_string())
        },
        None => None,
    }
}

// ---------------------------------------------------------------------------
// First frames
// ---------------------------------------------------------------------------
/// What a connection's first frame is.
#[derive(Debug)]
pub enum First {
    Hello,
    Register,
    PeerHello,
    Probe,
    /// Anything else, as a log shows it.
    Other { shown: String },
}

/// What becomes of a connection.
#[derive(Debug)]
pub enum Entry {
    /// A driver's or a command's session, here.
    Client,
    /// An agent, here.
    Agent,
    /// It is piped to the head, at one of these.
    Relay { at: Vec<String> },
    /// It waits for the first election.
    Wait,
    /// A peer's link.
    Peer,
    /// It is told which node it reached.
    Answer,
    Refuse { refusal: Refusal },
}

/// What becomes of a connection, as a mathematical value.
pub enum EntryV {
    Client,
    Agent,
    Relay { at: Seq<Seq<char>> },
    Wait,
    Peer,
    Answer,
    Refuse { refusal: RefusalV },
}

impl View for Entry {
    type V = EntryV;

    open spec fn view(&self) -> EntryV {
        match self {
            Entry::Client => EntryV::Client,
            Entry::Agent => EntryV::Agent,
            Entry::Relay { at } => EntryV::Relay { at: texts(at@) },
            Entry::Wait => EntryV::Wait,
            Entry::Peer => EntryV::Peer,
            Entry::Answer => EntryV::Answer,
            Entry::Refuse { refusal } => EntryV::Refuse { refusal: refusal@ },
        }
    }
}

/// The refusal of a connection that no head can take.
pub open spec fn no_head() -> RefusalV {
    plain_refusal("no_head"@, "no head elected yet, retry"@)
}

/// What becomes of a connection. Every group lives on the head, so a container
/// points at the daemon on its own box and still lands with every other rank.
/// One that comes before the first election waits, while there is time.
pub open spec fn entry_of(first: First, head: HeadV, expired: bool) -> EntryV {
    match first {
        First::PeerHello => EntryV::Peer,
        First::Probe => EntryV::Answer,
        First::Other { shown } => EntryV::Refuse {
            refusal: plain_refusal(
                "bad_first_frame"@,
                "first frame must be hello, agent_register, peer_hello or probe, got "@ + shown@,
            ),
        },
        _ => match head {
            HeadV::Here => if first is Hello {
                EntryV::Client
            } else {
                EntryV::Agent
            },
            HeadV::At(at) => EntryV::Relay { at },
            HeadV::Nowhere => EntryV::Refuse { refusal: no_head() },
            HeadV::Unknown => if expired {
                EntryV::Refuse { refusal: no_head() }
            } else {
                EntryV::Wait
            },
        },
    }
}

/// What becomes of a connection, by its first frame and where the head is.
pub fn conn_entry(first: First, head: Head, expired: bool) -> (r: Entry)
    ensures
        r@ == entry_of(first, head@, expired),
{
    let is_hello = match &first {
        First::Hello => true,
        _ => false,
    };
    match first {
        First::PeerHello => Entry::Peer,
        First::Probe => Entry::Answer,
        First::Other { shown } => {
            let mut e =
                "first frame must be hello, agent_register, peer_hello or probe, got ".to_string();
            e.append(shown.as_str());
            Entry::Refuse { refusal: refused("bad_first_frame", e) }
        },
        _ => match head {
            Head::Here => if is_hello {
                Entry::Client
            } else {
                Entry::Agent
            },
            Head::At(at) => Entry::Relay { at },
            Head::Nowhere => Entry::Refuse {
                refusal: refused("no_head", "no head elected yet, retry".to_string()),
            },
            Head::Unknown => if expired {
                Entry::Refuse {
                    refusal: refused("no_head", "no head elected yet, retry".to_string()),
                }
            } else {
                Entry::Wait
            },
        },
    }
}

/// The box a relayed connection claims. One that claims none and comes from this
/// box is on it: the relay's source address may be one this box does not
/// announce, so the head is told outright.
pub open spec fn relayed_claim(
    s: StateV,
    peer_ip: Seq<char>,
    mine: Seq<Seq<char>>,
    claimed: Seq<char>,
) -> Seq<char> {
    if claimed.len() == 0 && (loopback(peer_ip) || mine.contains(peer_ip)) {
        s.node_ip
    } else {
        claimed
    }
}

/// The box a relayed connection claims.
pub fn relay_claim(st: &State, peer_ip: &str, mine: &Vec<String>, claimed: &str) -> (r: String)
    ensures
        r@ == relayed_claim(st@, peer_ip@, texts(mine@), claimed@),
{
    if claimed.is_empty() && (is_loopback(peer_ip) || listed(mine, peer_ip)) {
        st.node_ip.clone()
    } else {
        claimed.to_string()
    }
}

/// Counts a connection that was piped to the head.
pub fn relayed(st: &mut State)
    ensures
        final(st)@ == (StateV {
            counters: Counters {
                relayed: crate::daemon::calls::next(old(st)@.counters.relayed),
                ..old(st)@.counters
            },
            ..old(st)@
        }),
{
    st.counters.relayed = crate::daemon::calls::bump(st.counters.relayed);
}

} // verus!
