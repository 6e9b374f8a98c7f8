//! Matching a requested shape against the cluster's measured topology.
//!
//! A request names its sets, says which of them need a fabric, and says what
//! has to hold between them. The answer names nodes and, for every link it
//! relied on, the address to dial and the interface it sits on.
//!
//! Every collection walked here is in a fixed order. Two daemons holding the
//! same view must return the same answer, or one name would mean two
//! placements: `solve` returns what `solved` says, which is a function of the
//! view and the request alone.

use vstd::prelude::*;
use vstd::string::*;

use crate::common::dict::Dict;
use crate::common::quote::{debug_quoted, debug_text};
use crate::common::text::{
    before, copied, dec, decimal, join, joined, listed, opt_text, same, sorts_before, texts,
};

verus! {

// ---------------------------------------------------------------------------
// The request
// ---------------------------------------------------------------------------
/// What a set needs of the links between its own members.
#[derive(Clone, Copy, Debug, PartialEq, Eq, Structural)]
pub enum Link {
    /// An operator-tagged fabric address, probe-confirmed between every pair.
    Rdma,
    /// Anything that answered a probe.
    Any,
}

/// The link a name stands for.
pub open spec fn link_of(s: Seq<char>) -> Option<Link> {
    if s == "rdma"@ || s == "roce"@ || s == "fabric"@ {
        Some(Link::Rdma)
    } else if s == "ip"@ || s == "any"@ || s == ""@ {
        Some(Link::Any)
    } else {
        None
    }
}

/// The complaint about a name that stands for no link.
pub open spec fn unknown_link(s: Seq<char>) -> Seq<char> {
    "unknown link "@ + debug_text(s) + ", expected rdma or ip"@
}

impl Link {
    /// Reads a link's name.
    pub fn parse(s: &str) -> (r: Result<Link, String>)
        ensures
            match r {
                Ok(l) => link_of(s@) == Some(l),
                Err(e) => link_of(s@) is None && e@ == unknown_link(s@),
            },
    {
        if same(s, "rdma") || same(s, "roce") || same(s, "fabric") {
            Ok(Link::Rdma)
        } else if same(s, "ip") || same(s, "any") || same(s, "") {
            Ok(Link::Any)
        } else {
            let mut e = "unknown link ".to_string();
            e.append(debug_quoted(s).as_str());
            e.append(", expected rdma or ip");
            Err(e)
        }
    }
}

/// One group of nodes the caller wants placed together.
#[derive(Debug, PartialEq, Eq)]
pub struct SetReq {
    pub name: String,
    /// Whole GPUs per member, one entry per node wanted.
    pub bundles: Vec<u64>,
    pub link: Link,
}

/// A `SetReq` as a mathematical value.
pub struct SetV {
    pub name: Seq<char>,
    pub bundles: Seq<u64>,
    pub link: Link,
}

impl View for SetReq {
    type V = SetV;

    open spec fn view(&self) -> SetV {
        SetV { name: self.name@, bundles: self.bundles@, link: self.link }
    }
}

impl SetReq {
    fn copy(&self) -> (r: SetReq)
        ensures
            r@ == self@,
    {
        let mut b: Vec<u64> = Vec::new();
        let mut i: usize = 0;
        while i < self.bundles.len()
            invariant
                i <= self.bundles@.len(),
                b@ == self.bundles@.take(i as int),
            decreases self.bundles@.len() - i,
        {
            b.push(self.bundles[i]);
            proof {
                assert(b@ =~= self.bundles@.take(i + 1));
            }
            i += 1;
        }
        proof {
            assert(b@ =~= self.bundles@);
        }
        SetReq { name: self.name.clone(), bundles: b, link: self.link }
    }
}

/// A requirement between two sets.
#[derive(Debug, PartialEq, Eq)]
pub struct BetweenReq {
    pub from: String,
    pub to: String,
    pub link: Link,
}

/// A `BetweenReq` as a mathematical value.
pub struct BetweenV {
    pub from: Seq<char>,
    pub to: Seq<char>,
    pub link: Link,
}

impl View for BetweenReq {
    type V = BetweenV;

    open spec fn view(&self) -> BetweenV {
        BetweenV { from: self.from@, to: self.to@, link: self.link }
    }
}

/// The shape a caller asks for.
#[derive(Debug, PartialEq, Eq)]
pub struct Request {
    pub sets: Vec<SetReq>,
    pub between: Vec<BetweenReq>,
}

/// A `Request` as a mathematical value.
pub struct RequestV {
    pub sets: Seq<SetV>,
    pub between: Seq<BetweenV>,
}

impl View for Request {
    type V = RequestV;

    open spec fn view(&self) -> RequestV {
        RequestV {
            sets: Seq::new(self.sets@.len(), |i: int| self.sets@[i]@),
            between: Seq::new(self.between@.len(), |i: int| self.between@[i]@),
        }
    }
}

// ---------------------------------------------------------------------------
// The topology
// ---------------------------------------------------------------------------
/// Nodes on one fabric, where every pair has been probed.
#[derive(Debug, PartialEq, Eq)]
pub struct Island {
    pub nodes: Vec<String>,
    /// The fabric address of each node.
    pub addr: Dict<String>,
}

/// One address a node answers on.
#[derive(Debug, PartialEq, Eq)]
pub struct Port {
    pub addr: String,
    /// Absent where the address was configured rather than discovered.
    pub iface: Option<String>,
    pub tags: Vec<String>,
}

/// A `Port` as a mathematical value.
pub struct PortV {
    pub addr: Seq<char>,
    pub iface: Option<Seq<char>>,
    pub tags: Seq<Seq<char>>,
}

impl View for Port {
    type V = PortV;

    open spec fn view(&self) -> PortV {
        PortV { addr: self.addr@, iface: opt_text(self.iface), tags: texts(self.tags@) }
    }
}

impl PortV {
    /// Whether an operator tagged the address as a fabric one.
    pub open spec fn rdma(self) -> bool {
        self.tags.contains("rdma"@)
    }
}

impl Port {
    /// Whether an operator tagged the address as a fabric one.
    pub fn rdma(&self) -> (r: bool)
        ensures
            r == self@.rdma(),
    {
        listed(&self.tags, "rdma")
    }

    /// A copy of the port.
    pub fn copy(&self) -> (r: Port)
        ensures
            r@ == self@,
    {
        Port { addr: self.addr.clone(), iface: self.iface.clone(), tags: copied(&self.tags) }
    }
}

/// The ports of a node as mathematical values.
pub open spec fn port_views(v: Seq<Port>) -> Seq<PortV> {
    Seq::new(v.len(), |i: int| v[i]@)
}

/// What the matcher reads. Assembled from the daemon's merged view.
#[derive(Debug, PartialEq, Eq)]
pub struct Topology {
    /// Fabric islands.
    pub islands: Vec<Island>,
    /// Every address each node answers on.
    pub ports: Dict<Vec<Port>>,
    /// Address pairs that answered a probe, with the round trip observed:
    /// near address, far address, milliseconds. Undirected: a one-way link is
    /// not something to place on.
    pub links: Dict<Dict<u64>>,
    /// GPUs free on each node right now.
    pub free_gpus: Dict<u64>,
    /// Hostname per node, carried through for the answer to be readable.
    pub hosts: Dict<String>,
}

/// A `Topology` as a mathematical value.
pub struct TopologyV {
    pub islands: Seq<Seq<Seq<char>>>,
    pub ports: Map<Seq<char>, Seq<PortV>>,
    pub links: Map<(Seq<char>, Seq<char>), u64>,
    /// The nodes with GPUs to give, in id order.
    pub nodes: Seq<Seq<char>>,
    pub free_gpus: Map<Seq<char>, u64>,
}

impl View for Topology {
    type V = TopologyV;

    open spec fn view(&self) -> TopologyV {
        TopologyV {
            islands: Seq::new(self.islands@.len(), |i: int| texts(self.islands@[i].nodes@)),
            ports: Map::new(
                |k: Seq<char>| self.ports@.contains_key(k),
                |k: Seq<char>| port_views(self.ports@[k]@),
            ),
            links: Map::new(
                |p: (Seq<char>, Seq<char>)|
                    self.links@.contains_key(p.0) && self.links@[p.0]@.contains_key(p.1),
                |p: (Seq<char>, Seq<char>)| self.links@[p.0]@[p.1],
            ),
            nodes: self.free_gpus.order(),
            free_gpus: self.free_gpus@,
        }
    }
}

impl TopologyV {
    /// The round trip of a probed pair of addresses, whichever end probed.
    pub open spec fn rtt(self, a: Seq<char>, b: Seq<char>) -> Option<u64> {
        if self.links.contains_key((a, b)) {
            Some(self.links[(a, b)])
        } else if self.links.contains_key((b, a)) {
            Some(self.links[(b, a)])
        } else {
            None
        }
    }

    /// GPUs free on a node; none where it has no entry.
    pub open spec fn free(self, n: Seq<char>) -> u64 {
        if self.free_gpus.contains_key(n) {
            self.free_gpus[n]
        } else {
            0
        }
    }
}

/// One usable link between two nodes.
#[derive(Debug, PartialEq, Eq)]
pub struct Path {
    pub from: String,
    pub to: String,
    pub local: Port,
    pub remote: Port,
    pub rtt_ms: u64,
}

/// A `Path` as a mathematical value.
pub struct PathV {
    pub from: Seq<char>,
    pub to: Seq<char>,
    pub local: PortV,
    pub remote: PortV,
    pub rtt_ms: u64,
}

impl View for Path {
    type V = PathV;

    open spec fn view(&self) -> PathV {
        PathV {
            from: self.from@,
            to: self.to@,
            local: self.local@,
            remote: self.remote@,
            rtt_ms: self.rtt_ms,
        }
    }
}

/// Two keys compared after a number: the number first, then each text.
pub open spec fn ranks_before(
    n1: u64,
    a1: Seq<char>,
    b1: Seq<char>,
    n2: u64,
    a2: Seq<char>,
    b2: Seq<char>,
) -> bool {
    n1 < n2 || (n1 == n2 && (before(a1, a2) || (a1 == a2 && before(b1, b2))))
}

fn ranks(n1: u64, a1: &str, b1: &str, n2: u64, a2: &str, b2: &str) -> (r: bool)
    ensures
        r == ranks_before(n1, a1@, b1@, n2, a2@, b2@),
{
    n1 < n2 || (n1 == n2 && (sorts_before(a1, a2) || (same(a1, a2) && sorts_before(b1, b2))))
}

impl PathV {
    /// Ranked by round trip, then by address.
    pub open spec fn better(self, o: PathV) -> bool {
        ranks_before(
            self.rtt_ms,
            self.local.addr,
            self.remote.addr,
            o.rtt_ms,
            o.local.addr,
            o.remote.addr,
        )
    }

    /// Ranked by round trip, then by node.
    pub open spec fn closer(self, o: PathV) -> bool {
        ranks_before(self.rtt_ms, self.from, self.to, o.rtt_ms, o.from, o.to)
    }
}

/// The link over two ports, where both allow `link` and the pair was probed.
pub open spec fn usable(
    t: TopologyV,
    a: Seq<char>,
    b: Seq<char>,
    link: Link,
    x: PortV,
    y: PortV,
) -> Option<PathV> {
    if link == Link::Rdma && !(x.rdma() && y.rdma()) {
        None
    } else {
        match t.rtt(x.addr, y.addr) {
            Some(rtt) => Some(PathV { from: a, to: b, local: x, remote: y, rtt_ms: rtt }),
            None => None,
        }
    }
}

/// The better of two, the first where they tie.
pub open spec fn better_of(best: Option<PathV>, cand: Option<PathV>) -> Option<PathV> {
    match cand {
        None => best,
        Some(c) => match best {
            None => Some(c),
            Some(b) => if c.better(b) {
                Some(c)
            } else {
                Some(b)
            },
        },
    }
}

/// The best link from one port to any of `ys`, or `best` where none beats it.
pub open spec fn best_from_port(
    t: TopologyV,
    a: Seq<char>,
    b: Seq<char>,
    link: Link,
    x: PortV,
    ys: Seq<PortV>,
    best: Option<PathV>,
) -> Option<PathV>
    decreases ys.len(),
{
    if ys.len() == 0 {
        best
    } else {
        better_of(
            best_from_port(t, a, b, link, x, ys.drop_last(), best),
            usable(t, a, b, link, x, ys.last()),
        )
    }
}

/// The best link from any of `xs` to any of `ys`.
pub open spec fn best_link(
    t: TopologyV,
    a: Seq<char>,
    b: Seq<char>,
    link: Link,
    xs: Seq<PortV>,
    ys: Seq<PortV>,
) -> Option<PathV>
    decreases xs.len(),
{
    if xs.len() == 0 {
        None
    } else {
        best_from_port(
            t,
            a,
            b,
            link,
            xs.last(),
            ys,
            best_link(t, a, b, link, xs.drop_last(), ys),
        )
    }
}

/// The best link between two nodes meeting `link`.
pub open spec fn best_path(t: TopologyV, a: Seq<char>, b: Seq<char>, link: Link) -> Option<PathV> {
    if t.ports.contains_key(a) && t.ports.contains_key(b) {
        best_link(t, a, b, link, t.ports[a], t.ports[b])
    } else {
        None
    }
}

/// The view of an optional path.
pub open spec fn opt_path(p: Option<Path>) -> Option<PathV> {
    match p {
        Some(x) => Some(x@),
        None => None,
    }
}

impl Topology {

    /// A topology that holds nothing.
    pub fn new() -> (r: Topology)
        ensures
            r.islands@.len() == 0,
            r.ports@ == Map::<Seq<char>, Vec<Port>>::empty(),
            r.links@ == Map::<Seq<char>, Dict<u64>>::empty(),
            r.free_gpus@ == Map::<Seq<char>, u64>::empty(),
            r.hosts@ == Map::<Seq<char>, String>::empty(),
    {
        Topology {
            islands: Vec::new(),
            ports: Dict::new(),
            links: Dict::new(),
            free_gpus: Dict::new(),
            hosts: Dict::new(),
        }
    }

    /// Records a probed pair of addresses.
    pub fn link(&mut self, near: String, far: String, rtt_ms: u64)
        ensures
            final(self)@ == (TopologyV {
                links: old(self)@.links.insert((near@, far@), rtt_ms),
                ..old(self)@
            }),
            final(self).islands == old(self).islands,
            final(self).ports == old(self).ports,
            final(self).free_gpus == old(self).free_gpus,
            final(self).hosts == old(self).hosts,
    {
        let ghost was = self@;
        let ghost n = near@;
        let ghost f = far@;
        match self.links.get_mut(near.as_str()) {
            Some(row) => {
                row.insert(far, rtt_ms);
            },
            None => {
                let mut row: Dict<u64> = Dict::new();
                row.insert(far, rtt_ms);
                self.links.insert(near, row);
            },
        }
        proof {
            assert(self@.links =~= was.links.insert((n, f), rtt_ms));
            assert(self@.ports =~= was.ports);
            assert(self@.islands =~= was.islands);
        }
    }

    fn rtt(&self, a: &str, b: &str) -> (r: Option<u64>)
        ensures
            r == self@.rtt(a@, b@),
    {
        if let Some(row) = self.links.get(a) {
            if let Some(ms) = row.get(b) {
                proof {
                    assert(self@.links.contains_key((a@, b@)));
                }
                return Some(*ms);
            }
        }
        proof {
            assert(!self@.links.contains_key((a@, b@)));
        }
        if let Some(row) = self.links.get(b) {
            if let Some(ms) = row.get(a) {
                proof {
                    assert(self@.links.contains_key((b@, a@)));
                }
                return Some(*ms);
            }
        }
        proof {
            assert(!self@.links.contains_key((b@, a@)));
        }
        None
    }

    /// The best link between two nodes meeting `link`.
    ///
    /// Ranked by round trip, then by address, so a tie resolves the same way
    /// on every daemon.
    fn path(&self, a: &str, b: &str, link: Link) -> (r: Option<Path>)
        ensures
            opt_path(r) == best_path(self@, a@, b@, link),
    {
        let (pa, pb) = match (self.ports.get(a), self.ports.get(b)) {
            (Some(pa), Some(pb)) => (pa, pb),
            _ => return None,
        };
        let ghost t = self@;
        let ghost xs = port_views(pa@);
        let ghost ys = port_views(pb@);
        let mut best: Option<Path> = None;
        let mut i: usize = 0;
        while i < pa.len()
            invariant
                t == self@,
                xs == port_views(pa@),
                ys == port_views(pb@),
                i <= pa@.len(),
                opt_path(best) == best_link(t, a@, b@, link, xs.take(i as int), ys),
            decreases pa@.len() - i,
        {
            let ghost start = opt_path(best);
            let x = &pa[i];
            let mut j: usize = 0;
            while j < pb.len()
                invariant
                    t == self@,
                    xs == port_views(pa@),
                    ys == port_views(pb@),
                    i < pa@.len(),
                    j <= pb@.len(),
                    x == pa@[i as int],
                    opt_path(best) == best_from_port(
                        t,
                        a@,
                        b@,
                        link,
                        x@,
                        ys.take(j as int),
                        start,
                    ),
                decreases pb@.len() - j,
            {
                let y = &pb[j];
                let ghost was = opt_path(best);
                proof {
                    assert(ys.take(j + 1).drop_last() =~= ys.take(j as int));
                    assert(ys.take(j + 1).last() == y@);
                }
                if !(link == Link::Rdma && !(x.rdma() && y.rdma())) {
                    if let Some(rtt) = self.rtt(x.addr.as_str(), y.addr.as_str()) {
                        let better = match &best {
                            None => true,
                            Some(b0) => ranks(
                                rtt,
                                x.addr.as_str(),
                                y.addr.as_str(),
                                b0.rtt_ms,
                                b0.local.addr.as_str(),
                                b0.remote.addr.as_str(),
                            ),
                        };
                        if better {
                            best =
                            Some(
                                Path {
                                    from: a.to_string(),
                                    to: b.to_string(),
                                    local: x.copy(),
                                    remote: y.copy(),
                                    rtt_ms: rtt,
                                },
                            );
                        }
                    }
                }
                proof {
                    assert(opt_path(best) == better_of(was, usable(t, a@, b@, link, x@, y@)));
                }
                j += 1;
            }
            proof {
                assert(ys.take(ys.len() as int) =~= ys);
                assert(xs.take(i + 1).drop_last() =~= xs.take(i as int));
                assert(xs.take(i + 1).last() == x@);
            }
            i += 1;
        }
        proof {
            assert(xs.take(xs.len() as int) =~= xs);
        }
        best
    }
}

// ---------------------------------------------------------------------------
// Candidates
// ---------------------------------------------------------------------------
/// Whether a node can be member `i` of a set.
pub open spec fn fits(
    t: TopologyV,
    set: SetV,
    taken: Set<Seq<char>>,
    n: Seq<char>,
    i: int,
) -> bool {
    !taken.contains(n) && t.free(n) >= set.bundles[i]
}

/// The first nodes that fit, one for each bundle as far as they go. A node
/// that does not fit the bundle in turn is stepped over.
pub open spec fn picked(
    t: TopologyV,
    set: SetV,
    taken: Set<Seq<char>>,
    nodes: Seq<Seq<char>>,
) -> Seq<Seq<char>>
    decreases nodes.len(),
{
    if nodes.len() == 0 {
        Seq::empty()
    } else {
        let had = picked(t, set, taken, nodes.drop_last());
        if had.len() < set.bundles.len() && fits(t, set, taken, nodes.last(), had.len() as int) {
            had.push(nodes.last())
        } else {
            had
        }
    }
}

/// The choice from each island that can hold the whole set.
pub open spec fn island_choices(
    t: TopologyV,
    set: SetV,
    taken: Set<Seq<char>>,
    islands: Seq<Seq<Seq<char>>>,
) -> Seq<Seq<Seq<char>>>
    decreases islands.len(),
{
    if islands.len() == 0 {
        Seq::empty()
    } else {
        let had = island_choices(t, set, taken, islands.drop_last());
        let pick = picked(t, set, taken, islands.last());
        if pick.len() == set.bundles.len() {
            had.push(pick)
        } else {
            had
        }
    }
}

/// Candidate node groups for a set, best first.
///
/// An `Rdma` set may only sit inside an island, one choice for each. An `Any`
/// set takes nodes in id order.
pub open spec fn choices(t: TopologyV, set: SetV, taken: Set<Seq<char>>) -> Seq<Seq<Seq<char>>> {
    match set.link {
        Link::Rdma => island_choices(t, set, taken, t.islands),
        Link::Any => {
            let pick = picked(t, set, taken, t.nodes);
            if pick.len() == set.bundles.len() {
                seq![pick]
            } else {
                Seq::empty()
            }
        },
    }
}

/// The texts of a list of lists of strings.
pub open spec fn groups(v: Seq<Vec<String>>) -> Seq<Seq<Seq<char>>> {
    Seq::new(v.len(), |i: int| texts(v[i]@))
}

/// The nodes held, as a set.
pub open spec fn held(v: Seq<String>) -> Set<Seq<char>> {
    texts(v).to_set()
}

fn fit(t: &Topology, set: &SetReq, taken: &Vec<String>, n: &str, i: usize) -> (r: bool)
    requires
        i < set.bundles@.len(),
    ensures
        r == fits(t@, set@, held(taken@), n@, i as int),
{
    let free: u64 = match t.free_gpus.get(n) {
        Some(g) => *g,
        None => 0,
    };
    !listed(taken, n) && free >= set.bundles[i]
}

fn pick_island(t: &Topology, set: &SetReq, taken: &Vec<String>, nodes: &Vec<String>) -> (r: Vec<
    String,
>)
    ensures
        texts(r@) == picked(t@, set@, held(taken@), texts(nodes@)),
{
    let mut out: Vec<String> = Vec::new();
    let ghost all = texts(nodes@);
    let mut i: usize = 0;
    proof {
        assert(texts(out@) =~= Seq::<Seq<char>>::empty());
    }
    while i < nodes.len()
        invariant
            all == texts(nodes@),
            i <= nodes@.len(),
            texts(out@) == picked(t@, set@, held(taken@), all.take(i as int)),
        decreases nodes@.len() - i,
    {
        proof {
            assert(all.take(i + 1).drop_last() =~= all.take(i as int));
            assert(all.take(i + 1).last() == nodes@[i as int]@);
        }
        if out.len() < set.bundles.len() && fit(t, set, taken, nodes[i].as_str(), out.len()) {
            let ghost was = out@;
            out.push(nodes[i].clone());
            proof {
                assert(texts(out@) =~= texts(was).push(nodes@[i as int]@));
            }
        }
        i += 1;
    }
    proof {
        assert(all.take(all.len() as int) =~= all);
    }
    out
}

fn pick_any(t: &Topology, set: &SetReq, taken: &Vec<String>) -> (r: Vec<String>)
    ensures
        texts(r@) == picked(t@, set@, held(taken@), t@.nodes),
{
    let mut out: Vec<String> = Vec::new();
    let ghost all = t@.nodes;
    let mut i: usize = 0;
    proof {
        assert(texts(out@) =~= Seq::<Seq<char>>::empty());
    }
    while i < t.free_gpus.len()
        invariant
            all == t.free_gpus.order(),
            i <= all.len(),
            texts(out@) == picked(t@, set@, held(taken@), all.take(i as int)),
        decreases all.len() - i,
    {
        let n = t.free_gpus.key_at(i);
        proof {
            assert(all.take(i + 1).drop_last() =~= all.take(i as int));
            assert(all.take(i + 1).last() == n@);
        }
        if out.len() < set.bundles.len() && fit(t, set, taken, n.as_str(), out.len()) {
            let ghost was = out@;
            out.push(n.clone());
            proof {
                assert(texts(out@) =~= texts(was).push(n@));
            }
        }
        i += 1;
    }
    proof {
        assert(all.take(all.len() as int) =~= all);
    }
    out
}

/// Candidate node groups for a set, best first.
fn candidates(t: &Topology, set: &SetReq, taken: &Vec<String>) -> (r: Vec<Vec<String>>)
    ensures
        groups(r@) == choices(t@, set@, held(taken@)),
{
    let mut out: Vec<Vec<String>> = Vec::new();
    match set.link {
        Link::Rdma => {
            let ghost all = t@.islands;
            let mut i: usize = 0;
            proof {
                assert(groups(out@) =~= Seq::<Seq<Seq<char>>>::empty());
            }
            while i < t.islands.len()
                invariant
                    all == t@.islands,
                    i <= t.islands@.len(),
                    groups(out@) == island_choices(t@, set@, held(taken@), all.take(i as int)),
                decreases t.islands@.len() - i,
            {
                proof {
                    assert(all.take(i + 1).drop_last() =~= all.take(i as int));
                    assert(all.take(i + 1).last() == texts(t.islands@[i as int].nodes@));
                }
                let pick = pick_island(t, set, taken, &t.islands[i].nodes);
                if pick.len() == set.bundles.len() {
                    let ghost was = out@;
                    out.push(pick);
                    proof {
                        assert(groups(out@) =~= groups(was).push(texts(pick@)));
                    }
                }
                i += 1;
            }
            proof {
                assert(all.take(all.len() as int) =~= all);
            }
        },
        Link::Any => {
            let pick = pick_any(t, set, taken);
            if pick.len() == set.bundles.len() {
                out.push(pick);
                proof {
                    assert(groups(out@) =~= seq![texts(pick@)]);
                }
            } else {
                proof {
                    assert(groups(out@) =~= Seq::<Seq<Seq<char>>>::empty());
                }
            }
        },
    }
    out
}

// ---------------------------------------------------------------------------
// Links between sets
// ---------------------------------------------------------------------------
/// The nodes chosen for each set.
pub open spec fn chosen_view(c: Dict<Vec<String>>) -> Map<Seq<char>, Seq<Seq<char>>> {
    Map::new(|k: Seq<char>| c@.contains_key(k), |k: Seq<char>| texts(c@[k]@))
}

/// The closer of two, the first where they tie.
pub open spec fn closer_of(best: Option<PathV>, cand: Option<PathV>) -> Option<PathV> {
    match cand {
        None => best,
        Some(c) => match best {
            None => Some(c),
            Some(b) => if c.closer(b) {
                Some(c)
            } else {
                Some(b)
            },
        },
    }
}

/// The closest link from one node to any of `to`.
pub open spec fn closest_from(
    t: TopologyV,
    link: Link,
    a: Seq<char>,
    to: Seq<Seq<char>>,
    best: Option<PathV>,
) -> Option<PathV>
    decreases to.len(),
{
    if to.len() == 0 {
        best
    } else {
        closer_of(
            closest_from(t, link, a, to.drop_last(), best),
            best_path(t, a, to.last(), link),
        )
    }
}

/// The closest link from any of `from` to any of `to`.
pub open spec fn closest(t: TopologyV, link: Link, from: Seq<Seq<char>>, to: Seq<Seq<char>>) -> Option<
    PathV,
>
    decreases from.len(),
{
    if from.len() == 0 {
        None
    } else {
        closest_from(t, link, from.last(), to, closest(t, link, from.drop_last(), to))
    }
}

/// One link for each requirement, where every one can be met.
pub open spec fn links_between(
    t: TopologyV,
    between: Seq<BetweenV>,
    chosen: Map<Seq<char>, Seq<Seq<char>>>,
) -> Option<Seq<PathV>>
    decreases between.len(),
{
    if between.len() == 0 {
        Some(Seq::empty())
    } else {
        let b = between.last();
        match links_between(t, between.drop_last(), chosen) {
            None => None,
            Some(had) => if chosen.contains_key(b.from) && chosen.contains_key(b.to) {
                match closest(t, b.link, chosen[b.from], chosen[b.to]) {
                    Some(p) => Some(had.push(p)),
                    None => None,
                }
            } else {
                None
            },
        }
    }
}

/// The views of a list of paths.
pub open spec fn path_views(v: Seq<Path>) -> Seq<PathV> {
    Seq::new(v.len(), |i: int| v[i]@)
}

fn closest_link(t: &Topology, link: Link, from: &Vec<String>, to: &Vec<String>) -> (r: Option<Path>)
    ensures
        opt_path(r) == closest(t@, link, texts(from@), texts(to@)),
{
    let ghost xs = texts(from@);
    let ghost ys = texts(to@);
    let mut best: Option<Path> = None;
    let mut i: usize = 0;
    while i < from.len()
        invariant
            xs == texts(from@),
            ys == texts(to@),
            i <= from@.len(),
            opt_path(best) == closest(t@, link, xs.take(i as int), ys),
        decreases from@.len() - i,
    {
        let ghost start = opt_path(best);
        let mut j: usize = 0;
        while j < to.len()
            invariant
                xs == texts(from@),
                ys == texts(to@),
                i < from@.len(),
                j <= to@.len(),
                opt_path(best) == closest_from(t@, link, xs[i as int], ys.take(j as int), start),
            decreases to@.len() - j,
        {
            proof {
                assert(ys.take(j + 1).drop_last() =~= ys.take(j as int));
                assert(ys.take(j + 1).last() == to@[j as int]@);
            }
            if let Some(p) = t.path(from[i].as_str(), to[j].as_str(), link) {
                let closer = match &best {
                    None => true,
                    Some(b0) => ranks(
                        p.rtt_ms,
                        p.from.as_str(),
                        p.to.as_str(),
                        b0.rtt_ms,
                        b0.from.as_str(),
                        b0.to.as_str(),
                    ),
                };
                if closer {
                    best = Some(p);
                }
            }
            j += 1;
        }
        proof {
            assert(ys.take(ys.len() as int) =~= ys);
            assert(xs.take(i + 1).drop_last() =~= xs.take(i as int));
            assert(xs.take(i + 1).last() == xs[i as int]);
        }
        i += 1;
    }
    proof {
        assert(xs.take(xs.len() as int) =~= xs);
    }
    best
}

/// Where one requirement cannot be met, no longer list can.
proof fn lemma_unmet(
    t: TopologyV,
    between: Seq<BetweenV>,
    chosen: Map<Seq<char>, Seq<Seq<char>>>,
    i: int,
)
    requires
        0 <= i <= between.len(),
        links_between(t, between.take(i), chosen) is None,
    ensures
        links_between(t, between, chosen) is None,
    decreases between.len() - i,
{
    if i < between.len() {
        assert(between.take(i + 1).drop_last() =~= between.take(i));
        lemma_unmet(t, between, chosen, i + 1);
    } else {
        assert(between.take(i) =~= between);
    }
}

/// One path per `between` requirement, or None if any cannot be met.
fn paths_between(t: &Topology, req: &Request, chosen: &Dict<Vec<String>>) -> (r: Option<Vec<Path>>)
    ensures
        match r {
            Some(v) => links_between(t@, req@.between, chosen_view(*chosen)) == Some(
                path_views(v@),
            ),
            None => links_between(t@, req@.between, chosen_view(*chosen)) is None,
        },
{
    let ghost all = req@.between;
    let ghost c = chosen_view(*chosen);
    let mut out: Vec<Path> = Vec::new();
    let mut i: usize = 0;
    proof {
        assert(path_views(out@) =~= Seq::<PathV>::empty());
    }
    while i < req.between.len()
        invariant
            all == req@.between,
            c == chosen_view(*chosen),
            i <= req.between@.len(),
            links_between(t@, all.take(i as int), c) == Some(path_views(out@)),
        decreases req.between@.len() - i,
    {
        let b = &req.between[i];
        proof {
            assert(all.take(i + 1).drop_last() =~= all.take(i as int));
            assert(all.take(i + 1).last() == b@);
        }
        let best = match (chosen.get(b.from.as_str()), chosen.get(b.to.as_str())) {
            (Some(from), Some(to)) => closest_link(t, b.link, from, to),
            _ => None,
        };
        match best {
            Some(p) => {
                let ghost was = out@;
                out.push(p);
                proof {
                    assert(path_views(out@) =~= path_views(was).push(p@));
                }
            },
            None => {
                proof {
                    lemma_unmet(t@, all, c, i + 1);
                }
                return None;
            },
        }
        i += 1;
    }
    proof {
        assert(all.take(all.len() as int) =~= all);
    }
    Some(out)
}

// ---------------------------------------------------------------------------
// The search
// ---------------------------------------------------------------------------
/// Whether a set is placed before one that was given earlier: it needs a fabric,
/// and the other does not.
pub open spec fn goes_before(a: SetV, b: SetV) -> bool {
    a.link == Link::Rdma && b.link != Link::Rdma
}

/// Where a set goes among sets already in order: behind those that do not
/// have to wait for it.
pub open spec fn place_of(sorted: Seq<SetV>, s: SetV) -> int
    decreases sorted.len(),
{
    if sorted.len() > 0 && goes_before(s, sorted.last()) {
        place_of(sorted.drop_last(), s)
    } else {
        sorted.len() as int
    }
}

/// The order in which sets are placed: as given, with those that need a fabric
/// first.
pub open spec fn placing_order(sets: Seq<SetV>) -> Seq<SetV>
    decreases sets.len(),
{
    if sets.len() == 0 {
        Seq::empty()
    } else {
        let had = placing_order(sets.drop_last());
        had.insert(place_of(had, sets.last()), sets.last())
    }
}

/// The first choice of nodes for the sets in `rest`, in turn, with which
/// every link between sets can be had.
pub open spec fn completed(
    t: TopologyV,
    between: Seq<BetweenV>,
    rest: Seq<SetV>,
    chosen: Map<Seq<char>, Seq<Seq<char>>>,
    taken: Set<Seq<char>>,
) -> Option<Map<Seq<char>, Seq<Seq<char>>>>
    decreases rest.len(), 1int, 0int,
{
    if rest.len() == 0 {
        if links_between(t, between, chosen) is Some {
            Some(chosen)
        } else {
            None
        }
    } else {
        first_of(t, between, rest, choices(t, rest[0], taken), chosen, taken)
    }
}

/// The first of `cands` for the first set in `rest` from which the others
/// can be placed too.
pub open spec fn first_of(
    t: TopologyV,
    between: Seq<BetweenV>,
    rest: Seq<SetV>,
    cands: Seq<Seq<Seq<char>>>,
    chosen: Map<Seq<char>, Seq<Seq<char>>>,
    taken: Set<Seq<char>>,
) -> Option<Map<Seq<char>, Seq<Seq<char>>>>
    decreases rest.len(), 0int, cands.len(),
{
    if cands.len() == 0 || rest.len() == 0 {
        None
    } else {
        match completed(
            t,
            between,
            rest.drop_first(),
            chosen.insert(rest[0].name, cands[0]),
            taken.union(cands[0].to_set()),
        ) {
            Some(m) => Some(m),
            None => first_of(t, between, rest, cands.drop_first(), chosen, taken),
        }
    }
}

/// No two sets share a name.
pub open spec fn distinct_names(sets: Seq<SetV>) -> bool {
    forall|i: int, j: int|
        0 <= i < j < sets.len() ==> (#[trigger] sets[i]).name != (#[trigger] sets[j]).name
}

/// Whether a set goes by this name.
pub open spec fn has_set(sets: Seq<SetV>, name: Seq<char>) -> bool {
    exists|i: int| 0 <= i < sets.len() && (#[trigger] sets[i]).name == name
}

/// The views of a list of sets.
pub open spec fn set_views(v: Seq<SetReq>) -> Seq<SetV> {
    Seq::new(v.len(), |i: int| v[i]@)
}

pub proof fn lemma_place_of(sorted: Seq<SetV>, s: SetV)
    ensures
        0 <= place_of(sorted, s) <= sorted.len(),
    decreases sorted.len(),
{
    if sorted.len() > 0 && goes_before(s, sorted.last()) {
        lemma_place_of(sorted.drop_last(), s);
    }
}

/// Placing order keeps each set, once.
pub proof fn lemma_placing_order_keeps(sets: Seq<SetV>)
    ensures
        placing_order(sets).len() == sets.len(),
        placing_order(sets).to_multiset() == sets.to_multiset(),
    decreases sets.len(),
{
    broadcast use vstd::seq_lib::group_to_multiset_ensures;

    if sets.len() > 0 {
        let had = placing_order(sets.drop_last());
        lemma_placing_order_keeps(sets.drop_last());
        lemma_place_of(had, sets.last());
        assert(sets =~= sets.drop_last().push(sets.last()));
    } else {
        assert(placing_order(sets) =~= sets);
    }
}

/// The names of the sets in placing order are those of the sets, and no two
/// are the same where no two were.
pub proof fn lemma_placing_order_names(sets: Seq<SetV>)
    requires
        distinct_names(sets),
    ensures
        placing_order(sets).len() == sets.len(),
        distinct_names(placing_order(sets)),
        forall|n: Seq<char>| has_set(placing_order(sets), n) == #[trigger] has_set(sets, n),
        forall|i: int|
            0 <= i < sets.len() ==> placing_order(sets).contains(#[trigger] sets[i]),
        forall|i: int|
            0 <= i < sets.len() ==> sets.contains(#[trigger] placing_order(sets)[i]),
    decreases sets.len(),
{
    if sets.len() > 0 {
        let init = sets.drop_last();
        let s = sets.last();
        let had = placing_order(init);
        let p = place_of(had, s);
        let out = placing_order(sets);
        lemma_placing_order_names(init);
        lemma_place_of(had, s);
        assert(out == had.insert(p, s));
        assert forall|i: int| 0 <= i < out.len() implies sets.contains(#[trigger] out[i]) by {
            if i == p {
                assert(sets[sets.len() - 1] == out[i]);
            } else {
                let x = if i < p {
                    i
                } else {
                    i - 1
                };
                assert(had[x] == out[i]);
                let y = choose|y: int| 0 <= y < init.len() && init[y] == had[x];
                assert(sets[y] == out[i]);
            }
        }
        assert forall|i: int| 0 <= i < sets.len() implies out.contains(#[trigger] sets[i]) by {
            if i == sets.len() - 1 {
                assert(out[p] == sets[i]);
            } else {
                assert(init[i] == sets[i]);
                let x = choose|x: int| 0 <= x < had.len() && had[x] == init[i];
                assert(out[if x < p {
                    x
                } else {
                    x + 1
                }] == sets[i]);
            }
        }
        assert(!has_set(had, s.name)) by {
            if has_set(had, s.name) {
                assert(has_set(init, s.name));
                let y = choose|y: int| 0 <= y < init.len() && (#[trigger] init[y]).name == s.name;
                assert(sets[y].name == sets[sets.len() - 1].name);
            }
        }
        assert forall|i: int, j: int| 0 <= i < j < out.len() implies (#[trigger] out[i]).name != (
        #[trigger] out[j]).name by {
            let x = if i < p {
                i
            } else {
                i - 1
            };
            let y = if j < p {
                j
            } else {
                j - 1
            };
            if i == p {
                assert(had[y] == out[j]);
            } else if j == p {
                assert(had[x] == out[i]);
            } else {
                assert(had[x] == out[i] && had[y] == out[j]);
            }
        }
        assert forall|n: Seq<char>| has_set(out, n) == #[trigger] has_set(sets, n) by {
            if has_set(out, n) {
                let i = choose|i: int| 0 <= i < out.len() && (#[trigger] out[i]).name == n;
                assert(sets.contains(out[i]));
                let k = choose|k: int| 0 <= k < sets.len() && sets[k] == out[i];
                assert(sets[k].name == n);
            }
            if has_set(sets, n) {
                let i = choose|i: int| 0 <= i < sets.len() && (#[trigger] sets[i]).name == n;
                assert(out.contains(sets[i]));
                let k = choose|k: int| 0 <= k < out.len() && out[k] == sets[i];
                assert(out[k].name == n);
            }
        }
    }
}

fn set_goes_before(a: &SetReq, b: &SetReq) -> (r: bool)
    ensures
        r == goes_before(a@, b@),
{
    a.link == Link::Rdma && b.link != Link::Rdma
}

/// The sets in the order in which they are placed.
fn ordered(sets: &Vec<SetReq>) -> (r: Vec<SetReq>)
    ensures
        set_views(r@) == placing_order(set_views(sets@)),
{
    let ghost all = set_views(sets@);
    let mut out: Vec<SetReq> = Vec::new();
    let mut i: usize = 0;
    proof {
        assert(set_views(out@) =~= Seq::<SetV>::empty());
    }
    while i < sets.len()
        invariant
            all == set_views(sets@),
            i <= sets@.len(),
            set_views(out@) == placing_order(all.take(i as int)),
        decreases sets@.len() - i,
    {
        let s = sets[i].copy();
        let ghost had = set_views(out@);
        let mut j: usize = out.len();
        proof {
            assert(had.take(had.len() as int) =~= had);
        }
        while j > 0 && set_goes_before(&s, &out[j - 1])
            invariant
                j <= out@.len(),
                had == set_views(out@),
                place_of(had, s@) == place_of(had.take(j as int), s@),
            decreases j,
        {
            proof {
                assert(had.take(j as int).drop_last() =~= had.take(j - 1));
                assert(had.take(j as int).last() == out@[j - 1]@);
            }
            j -= 1;
        }
        let ghost sv = s@;
        proof {
            if j > 0 {
                assert(had.take(j as int).last() == out@[j - 1]@);
            }
            assert(place_of(had, sv) == j);
            assert(all.take(i + 1).drop_last() =~= all.take(i as int));
            assert(all.take(i + 1).last() == sv);
        }
        out.insert(j, s);
        proof {
            assert(set_views(out@) =~= had.insert(j as int, sv));
        }
        i += 1;
    }
    proof {
        assert(all.take(all.len() as int) =~= all);
    }
    out
}

/// Places the sets from `i` on. Where that fails, `chosen` and `taken` are
/// as they were.
fn search(
    t: &Topology,
    req: &Request,
    order: &Vec<SetReq>,
    i: usize,
    chosen: &mut Dict<Vec<String>>,
    taken: &mut Vec<String>,
) -> (r: bool)
    requires
        i <= order@.len(),
        distinct_names(set_views(order@)),
        forall|k: int|
            i <= k < order@.len() ==> !chosen_view(*old(chosen)).contains_key(
                (#[trigger] set_views(order@)[k]).name,
            ),
    ensures
        r ==> completed(
            t@,
            req@.between,
            set_views(order@).skip(i as int),
            chosen_view(*old(chosen)),
            held(old(taken)@),
        ) == Some(chosen_view(*final(chosen))),
        !r ==> completed(
            t@,
            req@.between,
            set_views(order@).skip(i as int),
            chosen_view(*old(chosen)),
            held(old(taken)@),
        ) is None,
        !r ==> chosen_view(*final(chosen)) == chosen_view(*old(chosen)),
        !r ==> final(taken)@ == old(taken)@,
    decreases order@.len() - i,
{
    let ghost all = set_views(order@);
    let ghost rest = all.skip(i as int);
    let ghost c0 = chosen_view(*chosen);
    let ghost h0 = held(taken@);
    let ghost t0 = taken@;
    if i == order.len() {
        return match paths_between(t, req, chosen) {
            Some(_) => true,
            None => false,
        };
    }
    let set = &order[i];
    let cands = candidates(t, set, taken);
    let ghost cs = groups(cands@);
    let depth: usize = taken.len();
    let mut k: usize = 0;
    proof {
        assert(rest[0] == set@);
        assert(rest.drop_first() =~= all.skip(i + 1));
        assert(cs.skip(0) =~= cs);
    }
    while k < cands.len()
        invariant
            i < order.len(),
            all == set_views(order@),
            c0 == chosen_view(*old(chosen)),
            t0 == old(taken)@,
            distinct_names(all),
            set@ == all[i as int],
            rest == all.skip(i as int),
            rest.len() > 0,
            rest[0] == set@,
            rest.drop_first() == all.skip(i + 1),
            chosen_view(*chosen) == c0,
            taken@ == t0,
            held(t0) == h0,
            depth == t0.len(),
            forall|m: int| i <= m < order@.len() ==> !c0.contains_key((#[trigger] all[m]).name),
            cs == groups(cands@),
            k <= cands@.len(),
            completed(t@, req@.between, rest, c0, h0) == first_of(
                t@,
                req@.between,
                rest,
                cs.skip(k as int),
                c0,
                h0,
            ),
        decreases cands@.len() - k,
    {
        let cand = &cands[k];
        let ghost cv = texts(cand@);
        let mut m: usize = 0;
        while m < cand.len()
            invariant
                m <= cand@.len(),
                taken@ == t0 + cand@.take(m as int),
            decreases cand@.len() - m,
        {
            taken.push(cand[m].clone());
            proof {
                assert(taken@ =~= t0 + cand@.take(m + 1));
            }
            m += 1;
        }
        proof {
            assert(cand@.take(cand@.len() as int) =~= cand@);
            assert(texts(taken@) =~= texts(t0) + cv);
            assert(held(taken@) =~= h0.union(cv.to_set())) by {
                assert forall|x: Seq<char>| held(taken@).contains(x) == h0.union(
                    cv.to_set(),
                ).contains(x) by {
                    if texts(taken@).contains(x) {
                        let q = choose|q: int|
                            0 <= q < texts(taken@).len() && texts(taken@)[q] == x;
                        if q < texts(t0).len() {
                            assert(texts(t0)[q] == x);
                        } else {
                            assert(cv[q - texts(t0).len()] == x);
                        }
                    }
                    if texts(t0).contains(x) {
                        let q = choose|q: int| 0 <= q < texts(t0).len() && texts(t0)[q] == x;
                        assert(texts(taken@)[q] == x);
                    }
                    if cv.contains(x) {
                        let q = choose|q: int| 0 <= q < cv.len() && cv[q] == x;
                        assert(texts(taken@)[texts(t0).len() + q] == x);
                    }
                }
            }
        }
        chosen.insert(set.name.clone(), copied(cand));
        let ghost c1 = chosen_view(*chosen);
        proof {
            assert(c1 =~= c0.insert(set@.name, cv));
            assert(cs.skip(k as int)[0] == cv);
            assert(cs.skip(k as int).drop_first() =~= cs.skip(k + 1));
            assert forall|m: int| i + 1 <= m < order@.len() implies !c1.contains_key(
                (#[trigger] all[m]).name,
            ) by {
                assert(all[i as int].name != all[m].name);
            }
        }
        if search(t, req, order, i + 1, chosen, taken) {
            return true;
        }
        chosen.remove(set.name.as_str());
        taken.truncate(depth);
        proof {
            assert(chosen_view(*chosen) =~= c0) by {
                assert(c1.remove(set@.name) =~= c0);
                assert(chosen_view(*chosen) =~= c1.remove(set@.name));
            }
            assert(taken@ =~= t0);
        }
        k += 1;
    }
    proof {
        assert(cs.skip(cs.len() as int).len() == 0);
    }
    false
}

// ---------------------------------------------------------------------------
// Binding
// ---------------------------------------------------------------------------
/// A member of a placed set, with the link its rank should bind.
#[derive(Debug, PartialEq, Eq)]
pub struct Member {
    pub node: String,
    pub bind: Port,
}

/// A `Member` as a mathematical value.
pub struct MemberV {
    pub node: Seq<char>,
    pub bind: PortV,
}

impl View for Member {
    type V = MemberV;

    open spec fn view(&self) -> MemberV {
        MemberV { node: self.node@, bind: self.bind@ }
    }
}

/// The views of a list of members.
pub open spec fn member_views(v: Seq<Member>) -> Seq<MemberV> {
    Seq::new(v.len(), |i: int| v[i]@)
}

/// A placement: the members of each set, and a link for each requirement.
#[derive(Debug, PartialEq, Eq)]
pub struct Solution {
    pub sets: Dict<Vec<Member>>,
    pub between: Vec<Path>,
}

/// A `Solution` as a mathematical value.
pub struct SolutionV {
    pub sets: Map<Seq<char>, Seq<MemberV>>,
    pub between: Seq<PathV>,
}

/// The members of each set.
pub open spec fn sets_view(d: Dict<Vec<Member>>) -> Map<Seq<char>, Seq<MemberV>> {
    Map::new(|k: Seq<char>| d@.contains_key(k), |k: Seq<char>| member_views(d@[k]@))
}

impl View for Solution {
    type V = SolutionV;

    open spec fn view(&self) -> SolutionV {
        SolutionV { sets: sets_view(self.sets), between: path_views(self.between@) }
    }
}

/// Whether a fabric port reaches a fabric port of node `q`.
pub open spec fn reaches(t: TopologyV, p: PortV, q: Seq<char>) -> bool {
    t.ports.contains_key(q) && exists|j: int|
        0 <= j < t.ports[q].len() && (#[trigger] t.ports[q][j]).rdma() && t.rtt(
            p.addr,
            t.ports[q][j].addr,
        ) is Some
}

/// Whether a port of `node` is a fabric one that reaches every other member.
pub open spec fn serves(t: TopologyV, p: PortV, node: Seq<char>, peers: Seq<Seq<char>>) -> bool {
    p.rdma() && forall|i: int|
        0 <= i < peers.len() ==> (#[trigger] peers[i]) == node || reaches(t, p, peers[i])
}

/// The first port that serves.
pub open spec fn first_serving(
    t: TopologyV,
    ports: Seq<PortV>,
    node: Seq<char>,
    peers: Seq<Seq<char>>,
) -> Option<PortV>
    decreases ports.len(),
{
    if ports.len() == 0 {
        None
    } else if serves(t, ports[0], node, peers) {
        Some(ports[0])
    } else {
        first_serving(t, ports.drop_first(), node, peers)
    }
}

/// The address a member binds for its own set's traffic: the fabric address
/// that reaches the rest of the set, or the node's own first choice.
pub open spec fn bind_of(
    t: TopologyV,
    link: Link,
    node: Seq<char>,
    peers: Seq<Seq<char>>,
) -> Option<PortV> {
    if !t.ports.contains_key(node) {
        None
    } else if link == Link::Rdma {
        first_serving(t, t.ports[node], node, peers)
    } else if t.ports[node].len() > 0 {
        Some(t.ports[node][0])
    } else {
        None
    }
}

fn port_reaches(t: &Topology, p: &Port, q: &str) -> (r: bool)
    ensures
        r == reaches(t@, p@, q@),
{
    let ports = match t.ports.get(q) {
        Some(v) => v,
        None => return false,
    };
    let ghost pv = port_views(ports@);
    let mut j: usize = 0;
    while j < ports.len()
        invariant
            t@.ports.contains_key(q@),
            t@.ports[q@] == pv,
            pv == port_views(ports@),
            j <= ports@.len(),
            forall|m: int|
                0 <= m < j ==> !((#[trigger] pv[m]).rdma() && t@.rtt(p@.addr, pv[m].addr) is Some),
        decreases ports@.len() - j,
    {
        let y = &ports[j];
        proof {
            assert(pv[j as int] == y@);
        }
        if y.rdma() && t.rtt(p.addr.as_str(), y.addr.as_str()).is_some() {
            return true;
        }
        j += 1;
    }
    false
}

fn port_serves(t: &Topology, p: &Port, node: &str, peers: &Vec<String>) -> (r: bool)
    ensures
        r == serves(t@, p@, node@, texts(peers@)),
{
    if !p.rdma() {
        return false;
    }
    let mut i: usize = 0;
    while i < peers.len()
        invariant
            p@.rdma(),
            i <= peers@.len(),
            forall|m: int|
                0 <= m < i ==> (#[trigger] texts(peers@)[m]) == node@ || reaches(
                    t@,
                    p@,
                    texts(peers@)[m],
                ),
        decreases peers@.len() - i,
    {
        proof {
            assert(texts(peers@)[i as int] == peers@[i as int]@);
        }
        if !same(peers[i].as_str(), node) && !port_reaches(t, p, peers[i].as_str()) {
            return false;
        }
        i += 1;
    }
    true
}

/// The view of an optional port.
pub open spec fn opt_port(p: Option<Port>) -> Option<PortV> {
    match p {
        Some(x) => Some(x@),
        None => None,
    }
}

/// The address a member binds for its own set's traffic.
fn bind_for(t: &Topology, set: &SetReq, node: &str, peers: &Vec<String>) -> (r: Option<Port>)
    ensures
        opt_port(r) == bind_of(t@, set.link, node@, texts(peers@)),
{
    let ports = match t.ports.get(node) {
        Some(v) => v,
        None => return None,
    };
    let ghost pv = port_views(ports@);
    match set.link {
        Link::Rdma => {
            let mut i: usize = 0;
            proof {
                assert(pv.skip(0) =~= pv);
            }
            while i < ports.len()
                invariant
                    set.link == Link::Rdma,
                    t@.ports.contains_key(node@),
                    t@.ports[node@] == pv,
                    pv == port_views(ports@),
                    i <= ports@.len(),
                    first_serving(t@, pv, node@, texts(peers@)) == first_serving(
                        t@,
                        pv.skip(i as int),
                        node@,
                        texts(peers@),
                    ),
                decreases ports@.len() - i,
            {
                proof {
                    assert(pv.skip(i as int)[0] == ports@[i as int]@);
                    assert(pv.skip(i as int).drop_first() =~= pv.skip(i + 1));
                }
                if port_serves(t, &ports[i], node, peers) {
                    return Some(ports[i].copy());
                }
                i += 1;
            }
            None
        },
        Link::Any => {
            if ports.len() > 0 {
                proof {
                    assert(pv[0] == ports@[0]@);
                }
                Some(ports[0].copy())
            } else {
                None
            }
        },
    }
}

/// The members of a set from `nodes` on, after `had`; or the complaint that a
/// node has no address to bind.
pub open spec fn bound(
    t: TopologyV,
    set: SetV,
    peers: Seq<Seq<char>>,
    nodes: Seq<Seq<char>>,
    had: Seq<MemberV>,
) -> Result<Seq<MemberV>, Seq<char>>
    decreases nodes.len(),
{
    if nodes.len() == 0 {
        Ok(had)
    } else {
        match bind_of(t, set.link, nodes[0], peers) {
            Some(p) => bound(
                t,
                set,
                peers,
                nodes.drop_first(),
                had.push(MemberV { node: nodes[0], bind: p }),
            ),
            None => Err(nodes[0] + " has no address for set "@ + debug_text(set.name)),
        }
    }
}

/// The members of every set from `sets` on, after `had`.
pub open spec fn all_bound(
    t: TopologyV,
    sets: Seq<SetV>,
    chosen: Map<Seq<char>, Seq<Seq<char>>>,
    had: Map<Seq<char>, Seq<MemberV>>,
) -> Result<Map<Seq<char>, Seq<MemberV>>, Seq<char>>
    decreases sets.len(),
{
    if sets.len() == 0 {
        Ok(had)
    } else {
        let nodes = chosen[sets[0].name];
        match bound(t, sets[0], nodes, nodes, Seq::empty()) {
            Ok(ms) => all_bound(t, sets.drop_first(), chosen, had.insert(sets[0].name, ms)),
            Err(e) => Err(e),
        }
    }
}

fn bind_set(t: &Topology, set: &SetReq, nodes: &Vec<String>) -> (r: Result<Vec<Member>, String>)
    ensures
        match r {
            Ok(v) => bound(t@, set@, texts(nodes@), texts(nodes@), Seq::empty()) == Ok::<
                Seq<MemberV>,
                Seq<char>,
            >(member_views(v@)),
            Err(e) => bound(t@, set@, texts(nodes@), texts(nodes@), Seq::empty()) == Err::<
                Seq<MemberV>,
                Seq<char>,
            >(e@),
        },
{
    let ghost all = texts(nodes@);
    let mut out: Vec<Member> = Vec::new();
    let mut i: usize = 0;
    proof {
        assert(all.skip(0) =~= all);
        assert(member_views(out@) =~= Seq::<MemberV>::empty());
    }
    while i < nodes.len()
        invariant
            all == texts(nodes@),
            i <= nodes@.len(),
            bound(t@, set@, all, all, Seq::empty()) == bound(
                t@,
                set@,
                all,
                all.skip(i as int),
                member_views(out@),
            ),
        decreases nodes@.len() - i,
    {
        proof {
            assert(all.skip(i as int)[0] == nodes@[i as int]@);
            assert(all.skip(i as int).drop_first() =~= all.skip(i + 1));
        }
        match bind_for(t, set, nodes[i].as_str(), nodes) {
            Some(bind) => {
                let ghost was = out@;
                let m = Member { node: nodes[i].clone(), bind };
                out.push(m);
                proof {
                    assert(member_views(out@) =~= member_views(was).push(m@));
                }
            },
            None => {
                let mut e = nodes[i].clone();
                e.append(" has no address for set ");
                e.append(debug_quoted(set.name.as_str()).as_str());
                return Err(e);
            },
        }
        i += 1;
    }
    Ok(out)
}

// ---------------------------------------------------------------------------
// Refusals
// ---------------------------------------------------------------------------
/// The complaint about the first set that asks for no nodes.
pub open spec fn empty_set(sets: Seq<SetV>) -> Option<Seq<char>>
    decreases sets.len(),
{
    if sets.len() == 0 {
        None
    } else if sets[0].bundles.len() == 0 {
        Some("set "@ + debug_text(sets[0].name) + " asks for no nodes"@)
    } else {
        empty_set(sets.drop_first())
    }
}

/// The complaint about the first requirement that names no set.
pub open spec fn unknown_set(sets: Seq<SetV>, between: Seq<BetweenV>) -> Option<Seq<char>>
    decreases between.len(),
{
    if between.len() == 0 {
        None
    } else if !has_set(sets, between[0].from) {
        Some("between names "@ + debug_text(between[0].from) + ", which is not a set"@)
    } else if !has_set(sets, between[0].to) {
        Some("between names "@ + debug_text(between[0].to) + ", which is not a set"@)
    } else {
        unknown_set(sets, between.drop_first())
    }
}

/// What is wrong with a request whatever the topology.
pub open spec fn complaint(req: RequestV) -> Option<Seq<char>> {
    match empty_set(req.sets) {
        Some(e) => Some(e),
        None => if !distinct_names(req.sets) {
            Some("two sets share a name"@)
        } else {
            unknown_set(req.sets, req.between)
        },
    }
}

/// The size of the largest island.
pub open spec fn biggest(islands: Seq<Seq<Seq<char>>>) -> nat
    decreases islands.len(),
{
    if islands.len() == 0 {
        0
    } else {
        let had = biggest(islands.drop_last());
        if islands.last().len() > had {
            islands.last().len()
        } else {
            had
        }
    }
}

/// Why one set cannot be placed by itself, if its size alone says so.
pub open spec fn too_big(t: TopologyV, s: SetV) -> Option<Seq<char>> {
    let want = s.bundles.len();
    match s.link {
        Link::Rdma => if biggest(t.islands) < want {
            Some(
                "set "@ + debug_text(s.name) + " wants "@ + decimal(want)
                    + " nodes sharing a fabric, largest island has "@ + decimal(biggest(t.islands)),
            )
        } else {
            None
        },
        Link::Any => if t.nodes.len() < want {
            Some(
                "set "@ + debug_text(s.name) + " wants "@ + decimal(want)
                    + " nodes, cluster has "@ + decimal(t.nodes.len()),
            )
        } else {
            None
        },
    }
}

/// The reasons for every set that is too big.
pub open spec fn reasons(t: TopologyV, sets: Seq<SetV>) -> Seq<Seq<char>>
    decreases sets.len(),
{
    if sets.len() == 0 {
        Seq::empty()
    } else {
        let had = reasons(t, sets.drop_last());
        match too_big(t, sets.last()) {
            Some(r) => had.push(r),
            None => had,
        }
    }
}

/// Why nothing fit, in the terms the request was written in.
pub open spec fn unplaceable(t: TopologyV, sets: Seq<SetV>) -> Seq<char> {
    let r = reasons(t, sets);
    if r.len() == 0 {
        "no assignment satisfies every set and link together"@
    } else {
        joined(r, ". "@)
    }
}

fn biggest_island(t: &Topology) -> (r: usize)
    ensures
        r == biggest(t@.islands),
{
    let ghost all = t@.islands;
    let mut best: usize = 0;
    let mut i: usize = 0;
    while i < t.islands.len()
        invariant
            all == t@.islands,
            i <= t.islands@.len(),
            best == biggest(all.take(i as int)),
        decreases t.islands@.len() - i,
    {
        proof {
            assert(all.take(i + 1).drop_last() =~= all.take(i as int));
            assert(all.take(i + 1).last() == texts(t.islands@[i as int].nodes@));
        }
        if t.islands[i].nodes.len() > best {
            best = t.islands[i].nodes.len();
        }
        i += 1;
    }
    proof {
        assert(all.take(all.len() as int) =~= all);
    }
    best
}

fn reason(t: &Topology, s: &SetReq) -> (r: Option<String>)
    ensures
        opt_text(r) == too_big(t@, s@),
{
    let want: usize = s.bundles.len();
    let mut e = "set ".to_string();
    e.append(debug_quoted(s.name.as_str()).as_str());
    e.append(" wants ");
    e.append(dec(want as u64).as_str());
    match s.link {
        Link::Rdma => {
            let biggest: usize = biggest_island(t);
            if biggest >= want {
                return None;
            }
            e.append(" nodes sharing a fabric, largest island has ");
            e.append(dec(biggest as u64).as_str());
        },
        Link::Any => {
            let have: usize = t.free_gpus.len();
            if have >= want {
                return None;
            }
            e.append(" nodes, cluster has ");
            e.append(dec(have as u64).as_str());
        },
    }
    Some(e)
}

/// Why nothing fit, in the terms the request was written in.
fn why_not(t: &Topology, req: &Request) -> (r: String)
    ensures
        r@ == unplaceable(t@, req@.sets),
{
    let ghost all = req@.sets;
    let mut parts: Vec<String> = Vec::new();
    let mut i: usize = 0;
    proof {
        assert(texts(parts@) =~= Seq::<Seq<char>>::empty());
    }
    while i < req.sets.len()
        invariant
            all == req@.sets,
            i <= req.sets@.len(),
            texts(parts@) == reasons(t@, all.take(i as int)),
        decreases req.sets@.len() - i,
    {
        proof {
            assert(all.take(i + 1).drop_last() =~= all.take(i as int));
            assert(all.take(i + 1).last() == req.sets@[i as int]@);
        }
        if let Some(p) = reason(t, &req.sets[i]) {
            let ghost was = parts@;
            parts.push(p);
            proof {
                assert(texts(parts@) =~= texts(was).push(p@));
            }
        }
        i += 1;
    }
    proof {
        assert(all.take(all.len() as int) =~= all);
    }
    if parts.len() == 0 {
        "no assignment satisfies every set and link together".to_string()
    } else {
        join(&parts, ". ")
    }
}

fn no_nodes(sets: &Vec<SetReq>) -> (r: Option<String>)
    ensures
        opt_text(r) == empty_set(set_views(sets@)),
{
    let ghost all = set_views(sets@);
    let mut i: usize = 0;
    proof {
        assert(all.skip(0) =~= all);
    }
    while i < sets.len()
        invariant
            all == set_views(sets@),
            i <= sets@.len(),
            empty_set(all) == empty_set(all.skip(i as int)),
        decreases sets@.len() - i,
    {
        proof {
            assert(all.skip(i as int)[0] == sets@[i as int]@);
            assert(all.skip(i as int).drop_first() =~= all.skip(i + 1));
        }
        if sets[i].bundles.len() == 0 {
            let mut e = "set ".to_string();
            e.append(debug_quoted(sets[i].name.as_str()).as_str());
            e.append(" asks for no nodes");
            return Some(e);
        }
        i += 1;
    }
    None
}

fn named(sets: &Vec<SetReq>, upto: usize, name: &str) -> (r: bool)
    requires
        upto <= sets@.len(),
    ensures
        r == has_set(set_views(sets@).take(upto as int), name@),
{
    let ghost all = set_views(sets@).take(upto as int);
    let mut i: usize = 0;
    while i < upto
        invariant
            i <= upto <= sets@.len(),
            all == set_views(sets@).take(upto as int),
            forall|j: int| 0 <= j < i ==> (#[trigger] all[j]).name != name@,
        decreases upto - i,
    {
        proof {
            assert(all[i as int] == sets@[i as int]@);
        }
        if same(sets[i].name.as_str(), name) {
            return true;
        }
        i += 1;
    }
    false
}

fn all_distinct(sets: &Vec<SetReq>) -> (r: bool)
    ensures
        r == distinct_names(set_views(sets@)),
{
    let ghost all = set_views(sets@);
    let mut i: usize = 0;
    while i < sets.len()
        invariant
            all == set_views(sets@),
            i <= sets@.len(),
            forall|a: int, b: int|
                0 <= a < b < i ==> (#[trigger] all[a]).name != (#[trigger] all[b]).name,
        decreases sets@.len() - i,
    {
        proof {
            assert(all[i as int] == sets@[i as int]@);
        }
        if named(sets, i, sets[i].name.as_str()) {
            proof {
                let t = all.take(i as int);
                let j = choose|j: int|
                    0 <= j < t.len() && (#[trigger] t[j]).name == all[i as int].name;
                assert(all[j].name == all[i as int].name);
            }
            return false;
        }
        proof {
            assert forall|a: int| 0 <= a < i implies (#[trigger] all[a]).name != all[i as int].name by {
                assert(all.take(i as int)[a] == all[a]);
            }
        }
        i += 1;
    }
    true
}

fn not_a_set(n: &str) -> (e: String)
    ensures
        e@ == "between names "@ + debug_text(n@) + ", which is not a set"@,
{
    let mut e = "between names ".to_string();
    e.append(debug_quoted(n).as_str());
    e.append(", which is not a set");
    e
}

fn no_such_set(req: &Request) -> (r: Option<String>)
    ensures
        opt_text(r) == unknown_set(req@.sets, req@.between),
{
    let ghost all = req@.between;
    let mut i: usize = 0;
    proof {
        assert(all.skip(0) =~= all);
        assert(req@.sets =~= set_views(req.sets@));
        assert(req@.sets.take(req@.sets.len() as int) =~= req@.sets);
    }
    while i < req.between.len()
        invariant
            all == req@.between,
            req@.sets == set_views(req.sets@).take(req.sets@.len() as int),
            i <= req.between@.len(),
            unknown_set(req@.sets, all) == unknown_set(req@.sets, all.skip(i as int)),
        decreases req.between@.len() - i,
    {
        let b = &req.between[i];
        proof {
            assert(all.skip(i as int)[0] == b@);
            assert(all.skip(i as int).drop_first() =~= all.skip(i + 1));
        }
        if !named(&req.sets, req.sets.len(), b.from.as_str()) {
            return Some(not_a_set(b.from.as_str()));
        }
        if !named(&req.sets, req.sets.len(), b.to.as_str()) {
            return Some(not_a_set(b.to.as_str()));
        }
        i += 1;
    }
    None
}

// ---------------------------------------------------------------------------
// The answer
// ---------------------------------------------------------------------------
/// The nodes chosen for each set of a request, if the search finds any.
pub open spec fn assignment(t: TopologyV, req: RequestV) -> Option<
    Map<Seq<char>, Seq<Seq<char>>>,
> {
    completed(t, req.between, placing_order(req.sets), Map::empty(), Set::empty())
}

/// What a request is answered.
pub open spec fn solved(t: TopologyV, req: RequestV) -> Result<SolutionV, Seq<char>> {
    match complaint(req) {
        Some(e) => Err(e),
        None => match assignment(t, req) {
            None => Err(unplaceable(t, req.sets)),
            Some(m) => match all_bound(t, req.sets, m, Map::empty()) {
                Err(e) => Err(e),
                Ok(sets) => Ok(
                    SolutionV { sets, between: links_between(t, req.between, m)->Some_0 },
                ),
            },
        },
    }
}

/// A search that succeeds chose nodes for each of its sets, kept what was
/// chosen before, and found every link.
pub proof fn lemma_completed(
    t: TopologyV,
    between: Seq<BetweenV>,
    rest: Seq<SetV>,
    chosen: Map<Seq<char>, Seq<Seq<char>>>,
    taken: Set<Seq<char>>,
)
    requires
        completed(t, between, rest, chosen, taken) is Some,
    ensures
        ({
            let m = completed(t, between, rest, chosen, taken)->Some_0;
            &&& links_between(t, between, m) is Some
            &&& forall|k: Seq<char>| #[trigger]
                m.contains_key(k) <==> chosen.contains_key(k) || has_set(rest, k)
        }),
    decreases rest.len(), 1int, 0int,
{
    if rest.len() > 0 {
        lemma_first_of(t, between, rest, choices(t, rest[0], taken), chosen, taken);
    }
}

proof fn lemma_first_of(
    t: TopologyV,
    between: Seq<BetweenV>,
    rest: Seq<SetV>,
    cands: Seq<Seq<Seq<char>>>,
    chosen: Map<Seq<char>, Seq<Seq<char>>>,
    taken: Set<Seq<char>>,
)
    requires
        first_of(t, between, rest, cands, chosen, taken) is Some,
    ensures
        ({
            let m = first_of(t, between, rest, cands, chosen, taken)->Some_0;
            &&& links_between(t, between, m) is Some
            &&& forall|k: Seq<char>| #[trigger]
                m.contains_key(k) <==> chosen.contains_key(k) || has_set(rest, k)
        }),
    decreases rest.len(), 0int, cands.len(),
{
    let c1 = chosen.insert(rest[0].name, cands[0]);
    let t1 = taken.union(cands[0].to_set());
    let tail = rest.drop_first();
    if completed(t, between, tail, c1, t1) is Some {
        lemma_completed(t, between, tail, c1, t1);
        let m = completed(t, between, tail, c1, t1)->Some_0;
        assert forall|k: Seq<char>| #[trigger]
            m.contains_key(k) <==> chosen.contains_key(k) || has_set(rest, k) by {
            if has_set(tail, k) {
                let i = choose|i: int| 0 <= i < tail.len() && (#[trigger] tail[i]).name == k;
                assert(rest[i + 1].name == k);
            }
            if has_set(rest, k) {
                let i = choose|i: int| 0 <= i < rest.len() && (#[trigger] rest[i]).name == k;
                if i > 0 {
                    assert(tail[i - 1].name == k);
                }
            }
            if k == rest[0].name {
                assert(has_set(rest, k));
            }
        }
    } else {
        lemma_first_of(t, between, rest, cands.drop_first(), chosen, taken);
    }
}

fn bind_sets(t: &Topology, req: &Request, chosen: &Dict<Vec<String>>) -> (r: Result<
    Dict<Vec<Member>>,
    String,
>)
    requires
        forall|i: int|
            0 <= i < req@.sets.len() ==> chosen@.contains_key((#[trigger] req@.sets[i]).name),
    ensures
        match r {
            Ok(d) => all_bound(t@, req@.sets, chosen_view(*chosen), Map::empty()) == Ok::<
                Map<Seq<char>, Seq<MemberV>>,
                Seq<char>,
            >(sets_view(d)),
            Err(e) => all_bound(t@, req@.sets, chosen_view(*chosen), Map::empty()) == Err::<
                Map<Seq<char>, Seq<MemberV>>,
                Seq<char>,
            >(e@),
        },
{
    let ghost all = req@.sets;
    let ghost c = chosen_view(*chosen);
    let mut out: Dict<Vec<Member>> = Dict::new();
    let mut i: usize = 0;
    proof {
        assert(all.skip(0) =~= all);
        assert(sets_view(out) =~= Map::<Seq<char>, Seq<MemberV>>::empty());
    }
    while i < req.sets.len()
        invariant
            all == req@.sets,
            c == chosen_view(*chosen),
            forall|i: int|
                0 <= i < req@.sets.len() ==> chosen@.contains_key((#[trigger] req@.sets[i]).name),
            i <= req.sets@.len(),
            all_bound(t@, all, c, Map::empty()) == all_bound(
                t@,
                all.skip(i as int),
                c,
                sets_view(out),
            ),
        decreases req.sets@.len() - i,
    {
        let s = &req.sets[i];
        proof {
            assert(all.skip(i as int)[0] == s@);
            assert(all.skip(i as int).drop_first() =~= all.skip(i + 1));
            assert(all[i as int] == s@);
        }
        if let Some(nodes) = chosen.get(s.name.as_str()) {
            match bind_set(t, s, nodes) {
                Ok(ms) => {
                    let ghost was = sets_view(out);
                    out.insert(s.name.clone(), ms);
                    proof {
                        assert(sets_view(out) =~= was.insert(s@.name, member_views(ms@)));
                    }
                },
                Err(e) => return Err(e),
            }
        }
        i += 1;
    }
    Ok(out)
}

/// Match a request against the topology.
///
/// Sets are placed in the order given, with those that need a fabric first: they
/// have the fewest places to go, and placing a loose set first can take a node
/// the constrained one needed. Each set's candidates are tried in turn and the choice is undone
/// if a later set or a `between` requirement fails.
pub fn solve(t: &Topology, req: &Request) -> (r: Result<Solution, String>)
    ensures
        match r {
            Ok(s) => solved(t@, req@) == Ok::<SolutionV, Seq<char>>(s@),
            Err(e) => solved(t@, req@) == Err::<SolutionV, Seq<char>>(e@),
        },
{
    proof {
        assert(req@.sets =~= set_views(req.sets@));
    }
    if let Some(e) = no_nodes(&req.sets) {
        return Err(e);
    }
    if !all_distinct(&req.sets) {
        return Err("two sets share a name".to_string());
    }
    if let Some(e) = no_such_set(req) {
        return Err(e);
    }
    let order = ordered(&req.sets);
    let mut chosen: Dict<Vec<String>> = Dict::new();
    let mut taken: Vec<String> = Vec::new();
    proof {
        lemma_placing_order_names(req@.sets);
        assert(set_views(order@).skip(0) =~= set_views(order@));
        assert(chosen_view(chosen) =~= Map::<Seq<char>, Seq<Seq<char>>>::empty());
        assert(held(taken@) =~= Set::<Seq<char>>::empty());
    }
    if !search(t, req, &order, 0, &mut chosen, &mut taken) {
        return Err(why_not(t, req));
    }
    let ghost m = chosen_view(chosen);
    proof {
        lemma_completed(t@, req@.between, set_views(order@), Map::empty(), Set::empty());
        assert forall|i: int| 0 <= i < req@.sets.len() implies chosen@.contains_key(
            (#[trigger] req@.sets[i]).name,
        ) by {
            assert(has_set(req@.sets, req@.sets[i].name));
            assert(m.contains_key(req@.sets[i].name));
        }
    }
    let sets = match bind_sets(t, req, &chosen) {
        Ok(s) => s,
        Err(e) => return Err(e),
    };
    match paths_between(t, req, &chosen) {
        Some(between) => Ok(Solution { sets, between }),
        None => Err("no probed link satisfies a between entry".to_string()),
    }
}

} // verus!
