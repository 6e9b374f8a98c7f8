//! What the router does with a daemon's announcement.

use vstd::prelude::*;
use vstd::string::*;

use crate::common::dict::Dict;
use crate::common::json::{meaning, Json, JsonV};
use crate::common::proto::{compatible, major_matches, PROTO};
use crate::common::text::{parse_unsigned, rsplit_once, same, split_last, texts, unsigned};
use crate::daemon::announce::{fresh, number_in, replayed, within, MAX_DATAGRAM, Seen};
use crate::daemon::mesh::{str_list_at, strings_of};
use crate::serve::net::{permitted, Allow, AllowV, Net};
use crate::serve::poll::{AskV, WatchAsk};
use crate::serve::shared::{Shared, SharedV, WatchV};
use crate::serve::watch::{announce_address, announce_pick, asked, ensure_watched, wanted};

verus! {

broadcast use meaning;

/// What became of an announcement.
#[derive(Debug)]
pub enum RouterHeard {
    /// It is of a protocol this router does not speak.
    WrongProto { offered: String },
    /// Its sender's clock is too far off.
    Stale { t: u64 },
    /// It came from an address that is not acted on.
    NotAllowed,
    /// It says nothing to act on.
    Dropped,
    /// Its node is watched, and may have learned another address.
    Known,
    /// A watch is to be started.
    Watch { ask: WatchAsk },
}

/// What became of an announcement, as a mathematical value.
pub enum RouterHeardV {
    WrongProto { offered: Seq<char> },
    Stale { t: u64 },
    NotAllowed,
    Dropped,
    Known,
    Watch { ask: AskV },
}

impl View for RouterHeard {
    type V = RouterHeardV;

    open spec fn view(&self) -> RouterHeardV {
        match self {
            RouterHeard::WrongProto { offered } => RouterHeardV::WrongProto { offered: offered@ },
            RouterHeard::Stale { t } => RouterHeardV::Stale { t: *t },
            RouterHeard::NotAllowed => RouterHeardV::NotAllowed,
            RouterHeard::Dropped => RouterHeardV::Dropped,
            RouterHeard::Known => RouterHeardV::Known,
            RouterHeard::Watch { ask } => RouterHeardV::Watch { ask: ask@ },
        }
    }
}

/// Whether a datagram was cut to fit the buffer it was read into: verifying the
/// fragment would report a bad signature for an oversized sender.
pub fn was_cut(bytes: usize) -> (r: bool)
    ensures
        r == (bytes >= MAX_DATAGRAM),
{
    bytes >= MAX_DATAGRAM
}

/// Whether an announcement is new: of this protocol, in time, named, and not
/// heard before.
pub open spec fn news(
    seen: Map<Seq<char>, (Seq<char>, u64)>,
    v: JsonV,
    now_s: u64,
    window_s: u64,
) -> bool {
    let node = v.field("node_id"@).text_or_empty();
    let boot = v.field("boot_id"@).text_or_empty();
    &&& compatible(PROTO@, v.field("proto"@).text_or_empty())
    &&& v.field("t"@).uint() matches Some(t) && within(t, now_s, window_s)
    &&& node.len() > 0
    &&& boot.len() > 0
    &&& !replayed(seen, node, boot, number_in(v))
}

/// The port an announcement names for its daemon, as it wrote it.
pub open spec fn http_port_of(v: JsonV) -> Option<Seq<char>> {
    match v.field("http"@).text() {
        Some(http) => match split_last(http, ':') {
            Some((ip, port)) => match unsigned(port) {
                Some(n) if 0 < n <= 65535 => Some(port),
                _ => None,
            },
            None => None,
        },
        None => None,
    }
}

/// Those of some addresses that are permitted, each with a port, and the source
/// last.
pub open spec fn fallbacks(
    ranked: Seq<Seq<char>>,
    port: Seq<char>,
    a: AllowV,
    local: Seq<Net>,
) -> Seq<Seq<char>>
    decreases ranked.len(),
{
    if ranked.len() == 0 {
        Seq::empty()
    } else {
        let had = fallbacks(ranked.drop_last(), port, a, local);
        if permitted(a, ranked.last(), local) {
            had.push(ranked.last() + ":"@ + port)
        } else {
            had
        }
    }
}

/// The router, and what became of an announcement that is new.
pub open spec fn acted_on(
    s: SharedV,
    v: JsonV,
    src: Seq<char>,
    local: Seq<Net>,
) -> (SharedV, RouterHeardV) {
    let node = v.field("node_id"@).text_or_empty();
    let ranked = strings_of(v.field("addrs"@).items());
    match http_port_of(v) {
        None => (s, RouterHeardV::Dropped),
        Some(port) => if !permitted(s.cfg.allowed, src, local) {
            (s, RouterHeardV::NotAllowed)
        } else {
            let target = announce_pick(ranked, src, s.cfg.allowed, local) + ":"@ + port;
            if s.nodes.contains_key(node) {
                (
                    SharedV {
                        nodes: s.nodes.insert(
                            node,
                            if s.nodes[node].addr != target {
                                WatchV {
                                    alternates: s.nodes[node].alternates.insert(target),
                                    ..s.nodes[node]
                                }
                            } else {
                                s.nodes[node]
                            },
                        ),
                        ..s
                    },
                    RouterHeardV::Known,
                )
            } else if wanted(s, target) {
                (
                    asked(s, target),
                    RouterHeardV::Watch {
                        ask: AskV {
                            addr: target,
                            others: fallbacks(ranked, port, s.cfg.allowed, local).push(
                                src + ":"@ + port,
                            ),
                        },
                    },
                )
            } else {
                (s, RouterHeardV::Dropped)
            }
        },
    }
}

/// The router, and what became of an announcement.
pub open spec fn router_heard(
    s: SharedV,
    seen: Map<Seq<char>, (Seq<char>, u64)>,
    v: JsonV,
    src: Seq<char>,
    now_s: u64,
    window_s: u64,
    local: Seq<Net>,
) -> (SharedV, RouterHeardV) {
    if news(seen, v, now_s, window_s) {
        acted_on(s, v, src, local)
    } else if !compatible(PROTO@, v.field("proto"@).text_or_empty()) {
        (s, RouterHeardV::WrongProto { offered: v.field("proto"@).text_or_empty() })
    } else {
        match v.field("t"@).uint() {
            Some(t) if !within(t, now_s, window_s) => (s, RouterHeardV::Stale { t }),
            _ => (s, RouterHeardV::Dropped),
        }
    }
}

fn joined_port(h: &str, port: &str) -> (r: String)
    ensures
        r@ == h@ + ":"@ + port@,
{
    let mut s = h.to_string();
    s.append(":");
    s.append(port);
    s
}

fn fallback_list(ranked: &Vec<String>, port: &str, allowed: &Allow, local: &Vec<Net>) -> (r: Vec<
    String,
>)
    ensures
        texts(r@) == fallbacks(texts(ranked@), port@, allowed@, local@),
{
    let ghost all = texts(ranked@);
    let mut out: Vec<String> = Vec::new();
    let mut i: usize = 0;
    proof {
        assert(texts(out@) =~= Seq::<Seq<char>>::empty());
    }
    while i < ranked.len()
        invariant
            i <= ranked@.len(),
            all == texts(ranked@),
            texts(out@) == fallbacks(all.take(i as int), port@, allowed@, local@),
        decreases ranked@.len() - i,
    {
        let h = ranked[i].as_str();
        proof {
            assert(all.take(i + 1).drop_last() =~= all.take(i as int));
            assert(all.take(i + 1).last() == h@);
        }
        if allowed.permits(h, local) {
            let ghost was = out@;
            let t = joined_port(h, port);
            let ghost tv = t@;
            out.push(t);
            proof {
                assert(texts(out@) =~= texts(was).push(tv));
            }
        }
        i += 1;
    }
    proof {
        assert(all.take(all.len() as int) =~= all);
    }
    out
}

fn read_http_port(v: &Json) -> (r: Option<String>)
    ensures
        match r {
            Some(p) => http_port_of(v.v()) == Some(p@),
            None => http_port_of(v.v()) is None,
        },
{
    match v.text_at("http") {
        Some(http) => match rsplit_once(http, ':') {
            Some((_, port)) => match parse_unsigned(port, 65535) {
                Some(n) => if n > 0 {
                    Some(port.to_string())
                } else {
                    None
                },
                None => None,
            },
            None => None,
        },
        None => None,
    }
}

fn act_on(sh: &mut Shared, v: &Json, src: &str, local: &Vec<Net>) -> (r: RouterHeard)
    ensures
        (final(sh)@, r@) == acted_on(old(sh)@, v.v(), src@, local@),
{
    let ghost s0 = sh@;
    let port = match read_http_port(v) {
        Some(p) => p,
        None => return RouterHeard::Dropped,
    };
    if !sh.cfg.allowed_sources.permits(src, local) {
        return RouterHeard::NotAllowed;
    }
    let node = v.text_or_empty_at("node_id");
    let ranked = str_list_at(v, "addrs");
    let pick = announce_address(&ranked, src, &sh.cfg.allowed_sources, local);
    let target = joined_port(pick.as_str(), port.as_str());
    let known = match sh.nodes.get_mut(node.as_str()) {
        Some(w) => {
            let ghost w0 = w.deep_view();
            if !same(w.addr.as_str(), target.as_str()) {
                w.alternates.insert(target.clone(), ());
                proof {
                    assert(w.deep_view().alternates =~= w0.alternates.insert(target@));
                }
            }
            let ghost w1 = w.deep_view();
            proof {
                assert(sh@.nodes =~= s0.nodes.insert(node@, w1));
            }
            true
        },
        None => false,
    };
    if known {
        return RouterHeard::Known;
    }
    if !ensure_watched(sh, target.as_str()) {
        return RouterHeard::Dropped;
    }
    let mut others = fallback_list(&ranked, port.as_str(), &sh.cfg.allowed_sources, local);
    let ghost was = others@;
    let last = joined_port(src, port.as_str());
    let ghost lv = last@;
    others.push(last);
    proof {
        assert(texts(others@) =~= texts(was).push(lv));
    }
    RouterHeard::Watch { ask: WatchAsk { addr: target, others } }
}

/// What the router does with an announcement whose signature holds. It is a
/// hint: it only adds a watch candidate, and everything the daemon claims is then
/// read from it and probed like any other.
///
/// The allowlist gates what gets acted on, and nothing else: the source, and any
/// advertised address before it is chosen. The address the announcement calls
/// its own is not gated, because nothing acts on it. A watched node learns the
/// address as an alternate.
pub fn udp_listener(
    sh: &mut Shared,
    seen: &mut Dict<Seen>,
    v: &Json,
    src: &str,
    now_s: u64,
    window_s: u64,
    local: &Vec<Net>,
) -> (r: RouterHeard)
    ensures
        (final(sh)@, r@) == router_heard(
            old(sh)@,
            old(seen).deep_view(),
            v.v(),
            src@,
            now_s,
            window_s,
            local@,
        ),
        final(seen).deep_view() == (if news(old(seen).deep_view(), v.v(), now_s, window_s) {
            old(seen).deep_view().insert(
                v.v().field("node_id"@).text_or_empty(),
                (v.v().field("boot_id"@).text_or_empty(), number_in(v.v())),
            )
        } else {
            old(seen).deep_view()
        }),
{
    let offered = v.text_or_empty_at("proto");
    if !major_matches(offered.as_str()) {
        return RouterHeard::WrongProto { offered };
    }
    let t: u64 = match v.uint_at("t") {
        Some(t) => t,
        None => return RouterHeard::Dropped,
    };
    if !fresh(t, now_s, window_s) {
        return RouterHeard::Stale { t };
    }
    let node = v.text_or_empty_at("node_id");
    let boot = v.text_or_empty_at("boot_id");
    let seq: u64 = match v.uint_at("seq") {
        Some(n) => n,
        None => 0,
    };
    if node.as_str().is_empty() || boot.as_str().is_empty() {
        return RouterHeard::Dropped;
    }
    let ghost had = seen.deep_view();
    if let Some(last) = seen.get(node.as_str()) {
        proof {
            assert(had[node@] == last.deep_view());
        }
        if same(last.boot.as_str(), boot.as_str()) && seq <= last.seq {
            return RouterHeard::Dropped;
        }
    }
    seen.insert(node.clone(), Seen { boot: boot.clone(), seq });
    proof {
        assert(seen.deep_view() =~= had.insert(node@, (boot@, seq)));
    }
    act_on(sh, v, src, local)
}

/// Nothing is watched on the word of an address that is not allowed.
pub proof fn law_a_source_that_is_not_allowed_is_ignored(
    s: SharedV,
    v: JsonV,
    src: Seq<char>,
    local: Seq<Net>,
)
    requires
        !permitted(s.cfg.allowed, src, local),
    ensures
        acted_on(s, v, src, local).0 == s,
{
}

} // verus!
