//! What the router holds: its settings, the daemons it watches, the groups they
//! describe, and what the probes found.

use vstd::prelude::*;
use vstd::string::*;

use crate::common::dict::Dict;
use crate::common::json::{metas, Json, JsonV};
use crate::common::text::{opt_text, parse_unsigned, same, split, texts, trim, trimmed, unsigned};
use crate::daemon::announce::{entries, entries_of};
use crate::serve::net::{allowed, Allow, AllowV};

verus! {

// ---------------------------------------------------------------------------
// Settings
// ---------------------------------------------------------------------------
/// How the router runs. Times are in milliseconds.
#[derive(Debug)]
pub struct Config {
    pub daemons: Vec<String>,
    pub port: u16,
    pub announce_port: u16,
    pub poll_interval: u64,
    pub probe_interval: u64,
    pub probe_timeout: u64,
    pub probe_fresh: u64,
    pub probe_promote: u64,
    pub serving_timeout: u64,
    /// How long a request waits for its model to become routable, and retries a
    /// refused upstream connection, before it is refused.
    pub model_wait: u64,
    /// Interval between the comment lines sent to a streaming client while the
    /// upstream has not yet replied. Zero turns them off.
    pub sse_keepalive: u64,
    pub mcp_timeout: u64,
    pub tools_ttl: u64,
    /// How long a group stays listed while nothing it announces can serve.
    pub model_ttl: u64,
    pub allowed_sources: Allow,
    pub discover_peers: bool,
}

/// A `Config` as a mathematical value.
pub struct ConfigV {
    pub daemons: Seq<Seq<char>>,
    pub port: u16,
    pub announce_port: u16,
    pub poll_interval: u64,
    pub probe_interval: u64,
    pub probe_timeout: u64,
    pub probe_fresh: u64,
    pub probe_promote: u64,
    pub serving_timeout: u64,
    pub model_wait: u64,
    pub sse_keepalive: u64,
    pub mcp_timeout: u64,
    pub tools_ttl: u64,
    pub model_ttl: u64,
    pub allowed: AllowV,
    pub discover_peers: bool,
}

impl View for Config {
    type V = ConfigV;

    open spec fn view(&self) -> ConfigV {
        ConfigV {
            daemons: texts(self.daemons@),
            port: self.port,
            announce_port: self.announce_port,
            poll_interval: self.poll_interval,
            probe_interval: self.probe_interval,
            probe_timeout: self.probe_timeout,
            probe_fresh: self.probe_fresh,
            probe_promote: self.probe_promote,
            serving_timeout: self.serving_timeout,
            model_wait: self.model_wait,
            sse_keepalive: self.sse_keepalive,
            mcp_timeout: self.mcp_timeout,
            tools_ttl: self.tools_ttl,
            model_ttl: self.model_ttl,
            allowed: self.allowed_sources@,
            discover_peers: self.discover_peers,
        }
    }
}

/// The settings as the environment gives them: texts as they stand, and times
/// in milliseconds where they were set to something usable.
#[derive(Debug)]
pub struct Settings {
    pub daemons: Option<String>,
    pub port: Option<String>,
    pub announce_port: Option<String>,
    pub allowed_sources: Option<String>,
    pub discover_peers: Option<String>,
    pub poll_interval: Option<u64>,
    pub probe_interval: Option<u64>,
    pub probe_timeout: Option<u64>,
    pub probe_fresh: Option<u64>,
    pub probe_promote: Option<u64>,
    pub serving_timeout: Option<u64>,
    pub model_wait: Option<u64>,
    pub sse_keepalive: Option<u64>,
    pub mcp_timeout: Option<u64>,
    pub tools_ttl: Option<u64>,
    pub model_ttl: Option<u64>,
}

/// A setting, or its default where it is absent or blank.
pub open spec fn setting(v: Option<Seq<char>>, default: Seq<char>) -> Seq<char> {
    match v {
        Some(s) if trimmed(s).len() > 0 => s,
        _ => default,
    }
}

/// A setting, or its default where it is absent or blank.
pub fn env_str(v: &Option<String>, default: &str) -> (r: String)
    ensures
        r@ == setting(opt_text(*v), default@),
{
    match v {
        Some(s) => if trim(s.as_str()).is_empty() {
            default.to_string()
        } else {
            s.clone()
        },
        None => default.to_string(),
    }
}

/// The port a setting names, or its default.
pub open spec fn port_setting(v: Option<Seq<char>>, default: u16) -> u16 {
    match v {
        Some(s) => match unsigned(s) {
            Some(n) if n <= 65535 => n as u16,
            _ => default,
        },
        None => default,
    }
}

fn env_port(v: &Option<String>, default: u16) -> (r: u16)
    ensures
        r == port_setting(opt_text(*v), default),
{
    match v {
        Some(s) => match parse_unsigned(s.as_str(), 65535) {
            Some(n) => n as u16,
            None => default,
        },
        None => default,
    }
}

/// A number, or the largest that fits.
pub open spec fn at_most(n: int) -> u64 {
    if n <= u64::MAX {
        n as u64
    } else {
        u64::MAX
    }
}

/// A time, or its default.
pub open spec fn time_or(v: Option<u64>, default: u64) -> u64 {
    match v {
        Some(n) => n,
        None => default,
    }
}

fn ms(v: Option<u64>, default: u64) -> (r: u64)
    ensures
        r == time_or(v, default),
{
    match v {
        Some(n) => n,
        None => default,
    }
}

/// The settings a router runs with.
pub open spec fn config_of(s: Settings) -> ConfigV {
    let interval = time_or(s.probe_interval, 5000);
    let timeout = time_or(s.probe_timeout, 3000);
    ConfigV {
        daemons: entries(
            split(
                match s.daemons {
                    Some(d) => d@,
                    None => "127.0.0.1:6380"@,
                },
                ',',
            ),
        ),
        port: port_setting(opt_text(s.port), 6381),
        announce_port: port_setting(opt_text(s.announce_port), 6382),
        poll_interval: time_or(s.poll_interval, 10000),
        probe_interval: interval,
        probe_timeout: timeout,
        probe_fresh: time_or(s.probe_fresh, at_most(interval * 3 + timeout)),
        probe_promote: time_or(s.probe_promote, at_most(interval * 6)),
        serving_timeout: time_or(s.serving_timeout, 1800000),
        model_wait: time_or(s.model_wait, 60000),
        sse_keepalive: time_or(s.sse_keepalive, 10000),
        mcp_timeout: time_or(s.mcp_timeout, 180000),
        tools_ttl: time_or(s.tools_ttl, 60000),
        model_ttl: time_or(s.model_ttl, 3600000),
        allowed: allowed(entries(split(setting(opt_text(s.allowed_sources), "local"@), ','))),
        discover_peers: setting(opt_text(s.discover_peers), "1"@) == "1"@,
    }
}

impl Config {
    /// The settings a router runs with.
    ///
    /// Without a list of daemons the local one is the seed. An empty list means
    /// no seeds at all, leaving announcements as the only way in. A probe counts
    /// as fresh for three rounds and one timeout, so that one full round cannot
    /// make a healthy group read as stale.
    pub fn from_settings(s: &Settings) -> (r: Config)
        ensures
            r@ == config_of(*s),
    {
        let interval: u64 = ms(s.probe_interval, 5000);
        let timeout: u64 = ms(s.probe_timeout, 3000);
        let daemons = match &s.daemons {
            Some(d) => entries_of(d.as_str(), ','),
            None => entries_of("127.0.0.1:6380", ','),
        };
        let sources = env_str(&s.allowed_sources, "local");
        let peers = env_str(&s.discover_peers, "1");
        let fresh: u128 = interval as u128 * 3 + timeout as u128;
        let promote: u128 = interval as u128 * 6;
        Config {
            daemons,
            port: env_port(&s.port, 6381),
            announce_port: env_port(&s.announce_port, 6382),
            poll_interval: ms(s.poll_interval, 10000),
            probe_interval: interval,
            probe_timeout: timeout,
            probe_fresh: ms(
                s.probe_fresh,
                if fresh <= u64::MAX as u128 {
                    fresh as u64
                } else {
                    u64::MAX
                },
            ),
            probe_promote: ms(
                s.probe_promote,
                if promote <= u64::MAX as u128 {
                    promote as u64
                } else {
                    u64::MAX
                },
            ),
            serving_timeout: ms(s.serving_timeout, 1800000),
            model_wait: ms(s.model_wait, 60000),
            sse_keepalive: ms(s.sse_keepalive, 10000),
            mcp_timeout: ms(s.mcp_timeout, 180000),
            tools_ttl: ms(s.tools_ttl, 60000),
            model_ttl: ms(s.model_ttl, 3600000),
            allowed_sources: Allow::parse(sources.as_str()),
            discover_peers: same(peers.as_str(), "1"),
        }
    }
}

// ---------------------------------------------------------------------------
// Daemons and their nodes
// ---------------------------------------------------------------------------
/// What a daemon last said of itself.
#[derive(Debug)]
pub struct DaemonView {
    pub status: Option<Json>,
    /// When it was last heard.
    pub seen: Option<u64>,
    pub error: Option<String>,
    /// The daemon's own id, once a poll has replied.
    pub node_id: Option<String>,
    /// Named in the settings, and so watched for the life of the process.
    pub seed: bool,
}

/// A `DaemonView` as a mathematical value.
pub struct DaemonV {
    pub status: Option<JsonV>,
    pub seen: Option<u64>,
    pub error: Option<Seq<char>>,
    pub node_id: Option<Seq<char>>,
    pub seed: bool,
}

impl DeepView for DaemonView {
    type V = DaemonV;

    open spec fn deep_view(&self) -> DaemonV {
        DaemonV {
            status: match self.status {
                Some(j) => Some(j.v()),
                None => None,
            },
            seen: self.seen,
            error: opt_text(self.error),
            node_id: opt_text(self.node_id),
            seed: self.seed,
        }
    }
}

/// A daemon nobody has heard yet.
pub open spec fn unheard(seed: bool) -> DaemonV {
    DaemonV { status: None, seen: None, error: None, node_id: None, seed }
}

impl DaemonView {
    /// A daemon nobody has heard yet.
    pub fn empty(seed: bool) -> (r: DaemonView)
        ensures
            r.deep_view() == unheard(seed),
    {
        DaemonView { status: None, seen: None, error: None, node_id: None, seed }
    }
}

/// One node's watch: the address being polled, and the others the watch falls
/// through to when it stops replying. Every discovery source hands over
/// whichever address it saw, and watching each would poll a daemon once per
/// link.
#[derive(Debug)]
pub struct NodeWatch {
    pub addr: String,
    pub alternates: Dict<()>,
}

/// A `NodeWatch` as a mathematical value.
pub struct WatchV {
    pub addr: Seq<char>,
    pub alternates: Set<Seq<char>>,
}

impl DeepView for NodeWatch {
    type V = WatchV;

    open spec fn deep_view(&self) -> WatchV {
        WatchV { addr: self.addr@, alternates: self.alternates@.dom() }
    }
}

// ---------------------------------------------------------------------------
// Groups
// ---------------------------------------------------------------------------
/// One announced service, resolved into the base URLs that could serve it.
#[derive(Debug)]
pub struct Endpoint {
    /// Base URLs to try, best first. An announcement that names a host has
    /// exactly one. One that names a port has one for each address of the
    /// announcing node that this router is allowed to reach. None at all is a
    /// different failure from not announcing.
    pub candidates: Vec<String>,
    /// What was announced, for messages.
    pub announced: String,
    /// What the announcing agent noticed about the service afterwards.
    pub note: Option<String>,
}

/// An `Endpoint` as a mathematical value.
pub struct EndpointV {
    pub candidates: Seq<Seq<char>>,
    pub announced: Seq<char>,
    pub note: Option<Seq<char>>,
}

impl View for Endpoint {
    type V = EndpointV;

    open spec fn view(&self) -> EndpointV {
        EndpointV {
            candidates: texts(self.candidates@),
            announced: self.announced@,
            note: opt_text(self.note),
        }
    }
}

/// The first URL to try, where there is one.
pub open spec fn best_of(e: EndpointV) -> Option<Seq<char>> {
    if e.candidates.len() > 0 {
        Some(e.candidates[0])
    } else {
        None
    }
}

impl Endpoint {
    /// The URL to use with no probe to go on.
    pub fn best(&self) -> (r: Option<&str>)
        ensures
            match r {
                Some(s) => best_of(self@) == Some(s@),
                None => best_of(self@) is None,
            },
    {
        if self.candidates.len() > 0 {
            proof {
                assert(texts(self.candidates@)[0] == self.candidates@[0]@);
            }
            Some(self.candidates[0].as_str())
        } else {
            None
        }
    }
}

/// An endpoint as a mathematical value, where there is one.
pub open spec fn opt_endpoint(e: Option<Endpoint>) -> Option<EndpointV> {
    match e {
        Some(x) => Some(x@),
        None => None,
    }
}

/// One group as the freshest daemons describe it.
#[derive(Debug)]
pub struct GroupEntry {
    pub group: String,
    pub daemon: String,
    pub agents_alive: usize,
    pub running: usize,
    pub openai: Option<Endpoint>,
    pub mcp: Option<Endpoint>,
    /// What serves `openai`, as the agent whose endpoint won reported it. Empty
    /// when the container did not say.
    pub provider: String,
    /// Whether the group has actor rows, running or dead. An endpoint that
    /// outlives every rank still serves, and only rank state catches it.
    pub placed: bool,
}

/// A `GroupEntry` as a mathematical value.
pub struct GroupV {
    pub group: Seq<char>,
    pub daemon: Seq<char>,
    pub agents_alive: int,
    pub running: int,
    pub openai: Option<EndpointV>,
    pub mcp: Option<EndpointV>,
    pub provider: Seq<char>,
    pub placed: bool,
}

impl DeepView for GroupEntry {
    type V = GroupV;

    open spec fn deep_view(&self) -> GroupV {
        GroupV {
            group: self.group@,
            daemon: self.daemon@,
            agents_alive: self.agents_alive as int,
            running: self.running as int,
            openai: opt_endpoint(self.openai),
            mcp: opt_endpoint(self.mcp),
            provider: self.provider@,
            placed: self.placed,
        }
    }
}

// ---------------------------------------------------------------------------
// Probes
// ---------------------------------------------------------------------------
/// What the last probe of a group's endpoint found.
#[derive(Debug)]
pub struct ProbeResult {
    pub ok: bool,
    /// The endpoint's own model entries, as it wrote them.
    pub models: Vec<Json>,
    pub seen: u64,
    pub error: Option<String>,
    /// The candidate this group is routed to. Once an address replies the router
    /// keeps using it, so a flapping link cannot move live traffic on every
    /// probe.
    pub selected: Option<String>,
    /// When a higher-ranked candidate was last tried again.
    pub promoted_at: u64,
}

/// A `ProbeResult` as a mathematical value.
pub struct ProbeV {
    pub ok: bool,
    pub models: Seq<JsonV>,
    pub seen: u64,
    pub error: Option<Seq<char>>,
    pub selected: Option<Seq<char>>,
    pub promoted_at: u64,
}

impl DeepView for ProbeResult {
    type V = ProbeV;

    open spec fn deep_view(&self) -> ProbeV {
        ProbeV {
            ok: self.ok,
            models: metas(self.models@),
            seen: self.seen,
            error: opt_text(self.error),
            selected: opt_text(self.selected),
            promoted_at: self.promoted_at,
        }
    }
}

/// One group's serving clock, as the prober keeps it.
#[derive(Clone, Copy, Debug, PartialEq, Eq, Structural)]
pub struct Liveness {
    /// The last round the group could serve, or the round it was first seen if
    /// it never has.
    pub ok_at: u64,
    /// The retirement has been told.
    pub told: bool,
}

impl DeepView for Liveness {
    type V = Liveness;

    open spec fn deep_view(&self) -> Liveness {
        *self
    }
}

/// What a group's server said of its tools, and when: the list, or what went
/// wrong.
#[derive(Debug)]
pub struct CachedTools {
    pub at: u64,
    pub tools: Vec<Json>,
    pub error: Option<String>,
}

/// A `CachedTools` as a mathematical value.
pub struct CachedV {
    pub at: u64,
    pub tools: Seq<JsonV>,
    pub error: Option<Seq<char>>,
}

impl DeepView for CachedTools {
    type V = CachedV;

    open spec fn deep_view(&self) -> CachedV {
        CachedV { at: self.at, tools: metas(self.tools@), error: opt_text(self.error) }
    }
}

// ---------------------------------------------------------------------------
// The router
// ---------------------------------------------------------------------------
/// What the router holds.
#[derive(Debug)]
pub struct Shared {
    pub cfg: Config,
    /// When this process started.
    pub started: u64,
    /// Announcements must be signed.
    pub verify: bool,
    /// One entry for each daemon address being watched.
    pub daemons: Dict<DaemonView>,
    pub watched: Dict<()>,
    /// The watch that owns each node.
    pub nodes: Dict<NodeWatch>,
    /// The latest probe of each group.
    pub probes: Dict<ProbeResult>,
    /// What each group's server said of its tools.
    pub tools: Dict<CachedTools>,
    /// The lists being read right now.
    pub tools_fetching: Dict<()>,
    /// The serving clock of each group.
    pub live: Dict<Liveness>,
}

/// A `Shared` as a mathematical value.
#[verifier::ext_equal]
pub struct SharedV {
    pub cfg: ConfigV,
    pub started: u64,
    pub verify: bool,
    pub daemons: Map<Seq<char>, DaemonV>,
    pub watched: Set<Seq<char>>,
    pub nodes: Map<Seq<char>, WatchV>,
    pub probes: Map<Seq<char>, ProbeV>,
    pub tools: Map<Seq<char>, CachedV>,
    pub tools_fetching: Set<Seq<char>>,
    pub live: Map<Seq<char>, Liveness>,
}

impl View for Shared {
    type V = SharedV;

    open spec fn view(&self) -> SharedV {
        SharedV {
            cfg: self.cfg@,
            started: self.started,
            verify: self.verify,
            daemons: self.daemons.deep_view(),
            watched: self.watched@.dom(),
            nodes: self.nodes.deep_view(),
            probes: self.probes.deep_view(),
            tools: self.tools.deep_view(),
            tools_fetching: self.tools_fetching@.dom(),
            live: self.live.deep_view(),
        }
    }
}

impl Shared {
    /// A router that has heard nothing yet.
    pub fn new(cfg: Config, now: u64) -> (r: Shared)
        ensures
            r@ == (SharedV {
                cfg: cfg@,
                started: now,
                verify: false,
                daemons: Map::empty(),
                watched: Set::empty(),
                nodes: Map::empty(),
                probes: Map::empty(),
                tools: Map::empty(),
                tools_fetching: Set::empty(),
                live: Map::empty(),
            }),
    {
        let r = Shared {
            cfg,
            started: now,
            verify: false,
            daemons: Dict::new(),
            watched: Dict::new(),
            nodes: Dict::new(),
            probes: Dict::new(),
            tools: Dict::new(),
            tools_fetching: Dict::new(),
            live: Dict::new(),
        };
        proof {
            assert(r@.daemons =~= Map::empty());
            assert(r@.watched =~= Set::empty());
            assert(r@.nodes =~= Map::empty());
            assert(r@.probes =~= Map::empty());
            assert(r@.tools =~= Map::empty());
            assert(r@.tools_fetching =~= Set::empty());
            assert(r@.live =~= Map::empty());
        }
        r
    }
}

} // verus!
