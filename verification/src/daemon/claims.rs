//! The claim table: reading a request, answering it, and who holds the
//! answer.

use vstd::prelude::*;
use vstd::string::*;

use crate::common::dict::{lists, ordered, Dict};
use crate::common::json::{meaning, metas, opt_str, put, str_array, str_list, Json, JsonV};
use crate::common::quote::{debug_quoted, debug_text};
use crate::common::text::{copied, dec, dec_signed, decimal, opt_text, same, signed, texts, trim, trimmed};
use crate::daemon::calls::{bump, next};
use crate::daemon::claim::{
    link_of, member_views, port_views, solve, solved, unknown_link, BetweenReq, BetweenV, Link,
    Member, MemberV, Path, PathV, Port, PortV, Request, RequestV, SetReq, SetV, Solution,
    SolutionV, Topology, TopologyV,
};
use crate::daemon::place::{head_addr, head_address, row_gone, row_patch, row_set};
use crate::daemon::state::{
    patch_views, ClaimInfo, ClaimV, PairProbe, PairV, Patch, PeerInfo, PeerV, State, StateV,
};
use crate::daemon::status::{capped, claim_row, claim_row_of, LocalAddrs, LocalV};

verus! {

broadcast use meaning;

// ---------------------------------------------------------------------------
// The answer as JSON
// ---------------------------------------------------------------------------
/// The name a node goes by: its host's, or its id.
pub open spec fn host_of(hosts: Map<Seq<char>, Seq<char>>, n: Seq<char>) -> Seq<char> {
    if hosts.contains_key(n) {
        hosts[n]
    } else {
        n
    }
}

fn host_name(hosts: &Dict<String>, n: &str) -> (r: String)
    ensures
        r@ == host_of(hosts.deep_view(), n@),
{
    match hosts.get(n) {
        Some(h) => h.clone(),
        None => n.to_string(),
    }
}

/// One end of a link.
pub open spec fn end_doc(p: PortV) -> JsonV {
    JsonV::Obj(map!["addr"@ => JsonV::Str(p.addr), "iface"@ => opt_str(p.iface)])
}

/// A link as the answer shows it.
pub open spec fn path_doc(p: PathV, hosts: Map<Seq<char>, Seq<char>>) -> JsonV {
    JsonV::Obj(
        map![
            "from"@ => JsonV::Str(host_of(hosts, p.from)),
            "to"@ => JsonV::Str(host_of(hosts, p.to)),
            "from_node"@ => JsonV::Str(p.from),
            "to_node"@ => JsonV::Str(p.to),
            "local"@ => end_doc(p.local),
            "remote"@ => end_doc(p.remote),
            "rtt_ms"@ => JsonV::Uint(p.rtt_ms),
        ],
    )
}

/// A member as the answer shows it.
pub open spec fn member_doc(m: MemberV, hosts: Map<Seq<char>, Seq<char>>) -> JsonV {
    JsonV::Obj(
        map![
            "node"@ => JsonV::Str(m.node),
            "host"@ => JsonV::Str(host_of(hosts, m.node)),
            "bind"@ => JsonV::Str(m.bind.addr),
            "iface"@ => opt_str(m.bind.iface),
            "tags"@ => str_array(m.bind.tags),
        ],
    )
}

/// The members of a set as the answer shows them.
pub open spec fn members_doc(v: Seq<MemberV>, hosts: Map<Seq<char>, Seq<char>>) -> JsonV {
    JsonV::Arr(Seq::new(v.len(), |i: int| member_doc(v[i], hosts)))
}

/// A placement as it is answered.
pub open spec fn solution_doc(s: SolutionV, hosts: Map<Seq<char>, Seq<char>>) -> JsonV {
    JsonV::Obj(
        map![
            "sets"@ => JsonV::Obj(
                Map::new(
                    |k: Seq<char>| s.sets.contains_key(k),
                    |k: Seq<char>| members_doc(s.sets[k], hosts),
                ),
            ),
            "between"@ => JsonV::Arr(
                Seq::new(s.between.len(), |i: int| path_doc(s.between[i], hosts)),
            ),
        ],
    )
}

fn opt_json(v: &Option<String>) -> (r: Json)
    ensures
        r.v() == opt_str(opt_text(*v)),
{
    match v {
        Some(s) => Json::Str(s.clone()),
        None => Json::Null,
    }
}

fn end_json(p: &Port) -> (r: Json)
    ensures
        r.v() == end_doc(p@),
{
    let mut d = Json::object();
    put(&mut d, "addr", Json::Str(p.addr.clone()));
    put(&mut d, "iface", opt_json(&p.iface));
    Json::Obj(d)
}

impl Path {
    /// The link as the answer shows it.
    pub fn to_json(&self, hosts: &Dict<String>) -> (r: Json)
        ensures
            r.v() == path_doc(self@, hosts.deep_view()),
    {
        let mut d = Json::object();
        put(&mut d, "from", Json::Str(host_name(hosts, self.from.as_str())));
        put(&mut d, "to", Json::Str(host_name(hosts, self.to.as_str())));
        put(&mut d, "from_node", Json::Str(self.from.clone()));
        put(&mut d, "to_node", Json::Str(self.to.clone()));
        put(&mut d, "local", end_json(&self.local));
        put(&mut d, "remote", end_json(&self.remote));
        put(&mut d, "rtt_ms", Json::Uint(self.rtt_ms));
        Json::Obj(d)
    }
}

fn member_json(m: &Member, hosts: &Dict<String>) -> (r: Json)
    ensures
        r.v() == member_doc(m@, hosts.deep_view()),
{
    let mut d = Json::object();
    put(&mut d, "node", Json::Str(m.node.clone()));
    put(&mut d, "host", Json::Str(host_name(hosts, m.node.as_str())));
    put(&mut d, "bind", Json::Str(m.bind.addr.clone()));
    put(&mut d, "iface", opt_json(&m.bind.iface));
    put(&mut d, "tags", str_list(&m.bind.tags));
    Json::Obj(d)
}

fn members_json(v: &Vec<Member>, hosts: &Dict<String>) -> (r: Json)
    ensures
        r.v() == members_doc(member_views(v@), hosts.deep_view()),
{
    let mut out: Vec<Json> = Vec::new();
    let mut i: usize = 0;
    while i < v.len()
        invariant
            i <= v@.len(),
            out@.len() == i,
            forall|j: int|
                0 <= j < i ==> (#[trigger] out@[j]).v() == member_doc(v@[j]@, hosts.deep_view()),
        decreases v@.len() - i,
    {
        out.push(member_json(&v[i], hosts));
        i += 1;
    }
    proof {
        assert(metas(out@) =~= members_doc(member_views(v@), hosts.deep_view())->Arr_0);
    }
    Json::Arr(out)
}

impl Solution {
    /// The placement as it is answered, with the hosts of a topology.
    pub fn to_json(&self, t: &Topology) -> (r: Json)
        ensures
            r.v() == solution_doc(self@, t.hosts.deep_view()),
    {
        let ghost hosts = t.hosts.deep_view();
        let mut vals: Vec<Json> = Vec::new();
        let n: usize = self.sets.len();
        let mut i: usize = 0;
        while i < n
            invariant
                i <= n,
                n == self.sets.order().len(),
                hosts == t.hosts.deep_view(),
                vals@.len() == i,
                forall|j: int|
                    0 <= j < i ==> (#[trigger] vals@[j]).v() == members_doc(
                        member_views(self.sets@[self.sets.order()[j]]@),
                        hosts,
                    ),
            decreases n - i,
        {
            vals.push(members_json(self.sets.val_at(i), &t.hosts));
            i += 1;
        }
        let sets = self.sets.with_values(vals);
        proof {
            let want = Map::new(
                |k: Seq<char>| self@.sets.contains_key(k),
                |k: Seq<char>| members_doc(self@.sets[k], hosts),
            );
            assert forall|k: Seq<char>| self.sets@.contains_key(k) implies sets@[k].v()
                == members_doc(member_views(self.sets@[k]@), hosts) by {
                assert(self.sets@.dom().contains(k));
                let j = self.sets.order().index_of(k);
                assert(self.sets.order()[j] == k);
                assert(vals@[j].v() == members_doc(
                    member_views(self.sets@[self.sets.order()[j]]@),
                    hosts,
                ));
            }
            assert(sets.deep_view() =~= want);
        }
        let mut between: Vec<Json> = Vec::new();
        let mut i: usize = 0;
        while i < self.between.len()
            invariant
                i <= self.between@.len(),
                hosts == t.hosts.deep_view(),
                between@.len() == i,
                forall|j: int|
                    0 <= j < i ==> (#[trigger] between@[j]).v() == path_doc(
                        self.between@[j]@,
                        hosts,
                    ),
            decreases self.between@.len() - i,
        {
            between.push(self.between[i].to_json(&t.hosts));
            i += 1;
        }
        proof {
            assert(metas(between@) =~= Seq::new(
                self@.between.len(),
                |i: int| path_doc(self@.between[i], hosts),
            ));
        }
        let mut d = Json::object();
        put(&mut d, "sets", Json::Obj(sets));
        put(&mut d, "between", Json::Arr(between));
        Json::Obj(d)
    }
}

// ---------------------------------------------------------------------------
// Reading a request
// ---------------------------------------------------------------------------
/// The whole GPUs that a number asks for: the least whole number that is not
/// below it. None for anything that is no number.
pub open spec fn whole_gpus(j: JsonV) -> Option<u64> {
    match j {
        JsonV::Uint(n) => Some(n),
        JsonV::Neg(_) => Some(0),
        JsonV::Real(_, up, _) => Some(up),
        _ => None,
    }
}

/// The bundles of an array: each number in it.
pub open spec fn bundle_list(items: Seq<JsonV>) -> Seq<u64>
    decreases items.len(),
{
    if items.len() == 0 {
        Seq::empty()
    } else {
        let had = bundle_list(items.drop_last());
        match whole_gpus(items.last()) {
            Some(n) => had.push(n),
            None => had,
        }
    }
}

/// The bundles a set asks for: those of an array, or one GPU for each of a
/// count. A count that is no whole number is none.
pub open spec fn bundles_of(j: JsonV) -> Option<Seq<u64>> {
    match j {
        JsonV::Arr(items) => Some(bundle_list(items)),
        JsonV::Uint(n) => Some(Seq::new(n as nat, |i: int| 1u64)),
        JsonV::Neg(_) => Some(Seq::empty()),
        JsonV::Real(_, _, _) => Some(Seq::empty()),
        _ => None,
    }
}

/// The link a request names, or why it names none.
pub open spec fn link_at(j: JsonV) -> Result<Link, Seq<char>> {
    let name = match j.field("link"@) {
        JsonV::Str(s) => s,
        _ => "ip"@,
    };
    match link_of(name) {
        Some(l) => Ok(l),
        None => Err(unknown_link(name)),
    }
}

/// One set of a request.
pub open spec fn set_of(j: JsonV) -> Result<SetV, Seq<char>> {
    match j.field("name"@).text() {
        None => Err("a set needs a name"@),
        Some(name) => match bundles_of(j.field("bundles"@)) {
            None => Err("set "@ + debug_text(name) + " needs bundles"@),
            Some(bundles) => match link_at(j) {
                Err(e) => Err(e),
                Ok(link) => Ok(SetV { name, bundles, link }),
            },
        },
    }
}

/// The sets of a request from `items` on, after `had`.
pub open spec fn sets_of(items: Seq<JsonV>, had: Seq<SetV>) -> Result<Seq<SetV>, Seq<char>>
    decreases items.len(),
{
    if items.len() == 0 {
        Ok(had)
    } else {
        match set_of(items[0]) {
            Ok(s) => sets_of(items.drop_first(), had.push(s)),
            Err(e) => Err(e),
        }
    }
}

/// One requirement of a request.
pub open spec fn between_of(j: JsonV) -> Result<BetweenV, Seq<char>> {
    match j.field("from"@).text() {
        None => Err("between needs from"@),
        Some(from) => match j.field("to"@).text() {
            None => Err("between needs to"@),
            Some(to) => match link_at(j) {
                Err(e) => Err(e),
                Ok(link) => Ok(BetweenV { from, to, link }),
            },
        },
    }
}

/// The requirements of a request from `items` on, after `had`.
pub open spec fn betweens_of(items: Seq<JsonV>, had: Seq<BetweenV>) -> Result<
    Seq<BetweenV>,
    Seq<char>,
>
    decreases items.len(),
{
    if items.len() == 0 {
        Ok(had)
    } else {
        match between_of(items[0]) {
            Ok(b) => betweens_of(items.drop_first(), had.push(b)),
            Err(e) => Err(e),
        }
    }
}

/// The request that a shape asks for.
pub open spec fn request_of(shape: JsonV) -> Result<RequestV, Seq<char>> {
    match shape.field("sets"@) {
        JsonV::Arr(items) => match sets_of(items, Seq::empty()) {
            Err(e) => Err(e),
            Ok(sets) => match betweens_of(shape.field("between"@).items(), Seq::empty()) {
                Err(e) => Err(e),
                Ok(between) => Ok(RequestV { sets, between }),
            },
        },
        _ => Err("shape needs a sets array"@),
    }
}

fn read_bundles(j: Option<&Json>) -> (r: Option<Vec<u64>>)
    ensures
        match r {
            Some(v) => j is Some && bundles_of(j->Some_0.v()) == Some(v@),
            None => j is None || bundles_of(j->Some_0.v()) is None,
        },
{
    let mut out: Vec<u64> = Vec::new();
    match j {
        Some(Json::Arr(a)) => {
            let ghost all = metas(a@);
            let mut i: usize = 0;
            while i < a.len()
                invariant
                    all == metas(a@),
                    i <= a@.len(),
                    out@ == bundle_list(all.take(i as int)),
                decreases a@.len() - i,
            {
                proof {
                    assert(all.take(i + 1).drop_last() =~= all.take(i as int));
                    assert(all.take(i + 1).last() == a@[i as int].v());
                }
                match &a[i] {
                    Json::Uint(n) => out.push(*n),
                    Json::Neg(_) => out.push(0),
                    Json::Real(x) => out.push(x.up),
                    _ => {},
                }
                i += 1;
            }
            proof {
                assert(all.take(all.len() as int) =~= all);
            }
            Some(out)
        },
        Some(Json::Uint(n)) => {
            let mut i: u64 = 0;
            while i < *n
                invariant
                    i <= *n,
                    out@.len() == i,
                    forall|j: int| 0 <= j < i ==> (#[trigger] out@[j]) == 1,
                decreases *n - i,
            {
                out.push(1);
                i += 1;
            }
            proof {
                assert(out@ =~= Seq::new(*n as nat, |i: int| 1u64));
            }
            Some(out)
        },
        Some(Json::Neg(_)) => {
            proof {
                assert(out@ =~= Seq::<u64>::empty());
            }
            Some(out)
        },
        Some(Json::Real(_)) => {
            proof {
                assert(out@ =~= Seq::<u64>::empty());
            }
            Some(out)
        },
        _ => None,
    }
}

fn read_link(j: &Json) -> (r: Result<Link, String>)
    ensures
        match r {
            Ok(l) => link_at(j.v()) == Ok::<Link, Seq<char>>(l),
            Err(e) => link_at(j.v()) == Err::<Link, Seq<char>>(e@),
        },
{
    match j.text_at("link") {
        Some(s) => Link::parse(s),
        None => Link::parse("ip"),
    }
}

fn read_set(j: &Json) -> (r: Result<SetReq, String>)
    ensures
        match r {
            Ok(s) => set_of(j.v()) == Ok::<SetV, Seq<char>>(s@),
            Err(e) => set_of(j.v()) == Err::<SetV, Seq<char>>(e@),
        },
{
    let name = match j.text_at("name") {
        Some(s) => s.to_string(),
        None => return Err("a set needs a name".to_string()),
    };
    let bundles = match read_bundles(j.get("bundles")) {
        Some(b) => b,
        None => {
            let mut e = "set ".to_string();
            e.append(debug_quoted(name.as_str()).as_str());
            e.append(" needs bundles");
            return Err(e);
        },
    };
    match read_link(j) {
        Ok(link) => Ok(SetReq { name, bundles, link }),
        Err(e) => Err(e),
    }
}

fn read_between(j: &Json) -> (r: Result<BetweenReq, String>)
    ensures
        match r {
            Ok(s) => between_of(j.v()) == Ok::<BetweenV, Seq<char>>(s@),
            Err(e) => between_of(j.v()) == Err::<BetweenV, Seq<char>>(e@),
        },
{
    let from = match j.text_at("from") {
        Some(s) => s.to_string(),
        None => return Err("between needs from".to_string()),
    };
    let to = match j.text_at("to") {
        Some(s) => s.to_string(),
        None => return Err("between needs to".to_string()),
    };
    match read_link(j) {
        Ok(link) => Ok(BetweenReq { from, to, link }),
        Err(e) => Err(e),
    }
}

/// Read a request out of the JSON a client sent.
pub fn parse(shape: &Json) -> (r: Result<Request, String>)
    ensures
        match r {
            Ok(q) => request_of(shape.v()) == Ok::<RequestV, Seq<char>>(q@),
            Err(e) => request_of(shape.v()) == Err::<RequestV, Seq<char>>(e@),
        },
{
    let items = match shape.items_at("sets") {
        Some(a) => a,
        None => return Err("shape needs a sets array".to_string()),
    };
    let ghost all = metas(items@);
    let mut sets: Vec<SetReq> = Vec::new();
    let ghost no_sets: Seq<SetV> = Seq::empty();
    let mut i: usize = 0;
    proof {
        assert(all.skip(0) =~= all);
        assert(Seq::new(sets@.len(), |i: int| sets@[i]@) =~= no_sets);
    }
    while i < items.len()
        invariant
            all == metas(items@),
            shape.v().field("sets"@) == JsonV::Arr(all),
            no_sets == Seq::<SetV>::empty(),
            i <= items@.len(),
            sets_of(all, no_sets) == sets_of(
                all.skip(i as int),
                Seq::new(sets@.len(), |i: int| sets@[i]@),
            ),
        decreases items@.len() - i,
    {
        proof {
            assert(all.skip(i as int)[0] == items@[i as int].v());
            assert(all.skip(i as int).drop_first() =~= all.skip(i + 1));
        }
        match read_set(&items[i]) {
            Ok(s) => {
                let ghost was = sets@;
                let ghost sv = s@;
                sets.push(s);
                proof {
                    assert(Seq::new(sets@.len(), |i: int| sets@[i]@) =~= Seq::new(
                        was.len(),
                        |i: int| was[i]@,
                    ).push(sv));
                }
            },
            Err(e) => return Err(e),
        }
        i += 1;
    }
    let ghost got_sets = Seq::new(sets@.len(), |i: int| sets@[i]@);
    let mut between: Vec<BetweenReq> = Vec::new();
    let ghost none: Seq<BetweenV> = Seq::empty();
    proof {
        assert(Seq::new(between@.len(), |i: int| between@[i]@) =~= none);
    }
    if let Some(items) = shape.items_at("between") {
        let ghost all_b = metas(items@);
        let mut i: usize = 0;
        proof {
            assert(all_b.skip(0) =~= all_b);
        }
        while i < items.len()
            invariant
                all_b == metas(items@),
                shape.v().field("sets"@) == JsonV::Arr(all),
                shape.v().field("between"@) == JsonV::Arr(all_b),
                sets_of(all, Seq::empty()) == Ok::<Seq<SetV>, Seq<char>>(got_sets),
                none == Seq::<BetweenV>::empty(),
                i <= items@.len(),
                betweens_of(all_b, none) == betweens_of(
                    all_b.skip(i as int),
                    Seq::new(between@.len(), |i: int| between@[i]@),
                ),
            decreases items@.len() - i,
        {
            proof {
                assert(all_b.skip(i as int)[0] == items@[i as int].v());
                assert(all_b.skip(i as int).drop_first() =~= all_b.skip(i + 1));
            }
            match read_between(&items[i]) {
                Ok(s) => {
                    let ghost was = between@;
                    let ghost sv = s@;
                    between.push(s);
                    proof {
                        assert(Seq::new(between@.len(), |i: int| between@[i]@) =~= Seq::new(
                            was.len(),
                            |i: int| was[i]@,
                        ).push(sv));
                    }
                },
                Err(e) => return Err(e),
            }
            i += 1;
        }
    }
    Ok(Request { sets, between })
}

/// A number of a bundle as a numeral. A whole number has one, however it is written.
pub open spec fn numeral(j: JsonV) -> Option<Seq<char>> {
    match j {
        JsonV::Uint(n) => Some(decimal(n as nat)),
        JsonV::Neg(n) => Some(signed(n as int)),
        JsonV::Real(text, up, whole) => Some(
            if whole {
                decimal(up as nat)
            } else {
                text
            },
        ),
        _ => None,
    }
}

/// The numerals of the numbers in an array.
pub open spec fn numeral_list(items: Seq<JsonV>) -> Seq<Seq<char>>
    decreases items.len(),
{
    if items.len() == 0 {
        Seq::empty()
    } else {
        let had = numeral_list(items.drop_last());
        match numeral(items.last()) {
            Some(s) => had.push(s),
            None => had,
        }
    }
}

/// The bundles a set asks for as numerals. A count asks for one device each.
pub open spec fn numerals(j: JsonV) -> Seq<Seq<char>> {
    match j {
        JsonV::Arr(items) => numeral_list(items),
        JsonV::Uint(n) => Seq::new(n as nat, |i: int| "1"@),
        _ => Seq::empty(),
    }
}

/// The bundles of some sets one after another, as numerals.
pub open spec fn spelled_sets(sets: Seq<JsonV>) -> Seq<Seq<char>>
    decreases sets.len(),
{
    if sets.len() == 0 {
        Seq::empty()
    } else {
        spelled_sets(sets.drop_last()) + numerals(sets.last().field("bundles"@))
    }
}

/// The bundles of a shape's sets one after another, as numerals.
pub open spec fn spelled(shape: JsonV) -> Seq<Seq<char>> {
    spelled_sets(shape.field("sets"@).items())
}

/// Whether a shape is the one a claim is held for: it asks for the same, and for
/// the same of every device.
pub open spec fn same_shape(shape: JsonV, c: ClaimV) -> bool {
    request_of(shape) == Ok::<RequestV, Seq<char>>(c.shape) && spelled(shape) == c.exact
}

fn show_numeral(j: &Json) -> (r: Option<String>)
    ensures
        opt_text(r) == numeral(j.v()),
{
    match j {
        Json::Uint(n) => Some(dec(*n)),
        Json::Neg(n) => Some(dec_signed(*n)),
        Json::Real(x) => if x.whole {
            Some(dec(x.up))
        } else {
            Some(x.text.clone())
        },
        _ => None,
    }
}

fn add_numerals(j: Option<&Json>, out: &mut Vec<String>)
    ensures
        texts(final(out)@) == texts(old(out)@) + (match j {
            Some(x) => numerals(x.v()),
            None => Seq::empty(),
        }),
{
    let ghost start = texts(out@);
    proof {
        assert(start + Seq::<Seq<char>>::empty() =~= start);
    }
    match j {
        Some(Json::Arr(a)) => {
            let ghost all = metas(a@);
            let mut i: usize = 0;
            while i < a.len()
                invariant
                    all == metas(a@),
                    i <= a@.len(),
                    texts(out@) == start + numeral_list(all.take(i as int)),
                decreases a@.len() - i,
            {
                proof {
                    assert(all.take(i + 1).drop_last() =~= all.take(i as int));
                    assert(all.take(i + 1).last() == a@[i as int].v());
                }
                if let Some(s) = show_numeral(&a[i]) {
                    let ghost was = texts(out@);
                    let ghost sv = s@;
                    out.push(s);
                    proof {
                        assert(texts(out@) =~= was.push(sv));
                        assert(texts(out@) =~= start + numeral_list(all.take(i as int)).push(sv));
                    }
                }
                i += 1;
            }
            proof {
                assert(all.take(all.len() as int) =~= all);
            }
        },
        Some(Json::Uint(n)) => {
            let mut i: u64 = 0;
            proof {
                assert(start + Seq::new(0, |i: int| "1"@) =~= start);
            }
            while i < *n
                invariant
                    i <= *n,
                    texts(out@) == start + Seq::new(i as nat, |i: int| "1"@),
                decreases *n - i,
            {
                let ghost was = texts(out@);
                out.push("1".to_string());
                i += 1;
                proof {
                    assert(texts(out@) =~= was.push("1"@));
                    assert(texts(out@) =~= start + Seq::new(i as nat, |i: int| "1"@));
                }
            }
        },
        _ => {},
    }
}

/// The bundles of a shape's sets one after another, as numerals.
fn spell(shape: &Json) -> (r: Vec<String>)
    ensures
        texts(r@) == spelled(shape.v()),
{
    let mut out: Vec<String> = Vec::new();
    proof {
        assert(texts(out@) =~= Seq::<Seq<char>>::empty());
    }
    if let Some(items) = shape.items_at("sets") {
        let ghost all = metas(items@);
        let mut i: usize = 0;
        while i < items.len()
            invariant
                all == metas(items@),
                i <= items@.len(),
                texts(out@) == spelled_sets(all.take(i as int)),
            decreases items@.len() - i,
        {
            proof {
                assert(all.take(i + 1).drop_last() =~= all.take(i as int));
                assert(all.take(i + 1).last() == items@[i as int].v());
            }
            let ghost was = texts(out@);
            let b = items[i].get("bundles");
            add_numerals(b, &mut out);
            proof {
                if b is None {
                    assert(numerals(items@[i as int].v().field("bundles"@)) =~= Seq::empty());
                }
                assert(texts(out@) =~= was + numerals(items@[i as int].v().field("bundles"@)));
            }
            i += 1;
        }
        proof {
            assert(all.take(all.len() as int) =~= all);
        }
    } else {
        proof {
            assert(shape.v().field("sets"@).items() =~= Seq::<JsonV>::empty());
        }
    }
    out
}

fn same_texts(a: &Vec<String>, b: &Vec<String>) -> (r: bool)
    ensures
        r == (texts(a@) == texts(b@)),
{
    if a.len() != b.len() {
        proof {
            assert(texts(a@).len() != texts(b@).len());
        }
        return false;
    }
    let mut i: usize = 0;
    while i < a.len()
        invariant
            i <= a@.len(),
            a@.len() == b@.len(),
            forall|j: int| 0 <= j < i ==> texts(a@)[j] == texts(b@)[j],
        decreases a@.len() - i,
    {
        if !same(a[i].as_str(), b[i].as_str()) {
            proof {
                assert(texts(a@)[i as int] != texts(b@)[i as int]);
            }
            return false;
        }
        i += 1;
    }
    proof {
        assert(texts(a@) =~= texts(b@));
    }
    true
}

fn same_numbers(a: &Vec<u64>, b: &Vec<u64>) -> (r: bool)
    ensures
        r == (a@ == b@),
{
    if a.len() != b.len() {
        return false;
    }
    let mut i: usize = 0;
    while i < a.len()
        invariant
            i <= a@.len(),
            a@.len() == b@.len(),
            forall|j: int| 0 <= j < i ==> a@[j] == b@[j],
        decreases a@.len() - i,
    {
        if a[i] != b[i] {
            return false;
        }
        i += 1;
    }
    proof {
        assert(a@ =~= b@);
    }
    true
}

/// Whether two requests ask for the same.
pub fn same_request(a: &Request, b: &Request) -> (r: bool)
    ensures
        r == (a@ == b@),
{
    let ghost (x, y) = (a@, b@);
    if a.sets.len() != b.sets.len() || a.between.len() != b.between.len() {
        proof {
            assert(x.sets.len() != y.sets.len() || x.between.len() != y.between.len());
        }
        return false;
    }
    let mut i: usize = 0;
    while i < a.sets.len()
        invariant
            x == a@,
            y == b@,
            i <= a.sets@.len(),
            a.sets@.len() == b.sets@.len(),
            forall|j: int| 0 <= j < i ==> x.sets[j] == y.sets[j],
        decreases a.sets@.len() - i,
    {
        let (p, q) = (&a.sets[i], &b.sets[i]);
        proof {
            assert(x.sets[i as int] == p@);
            assert(y.sets[i as int] == q@);
        }
        if !same(p.name.as_str(), q.name.as_str()) || !same_numbers(&p.bundles, &q.bundles)
            || p.link != q.link {
            return false;
        }
        i += 1;
    }
    let mut i: usize = 0;
    while i < a.between.len()
        invariant
            x == a@,
            y == b@,
            i <= a.between@.len(),
            a.between@.len() == b.between@.len(),
            forall|j: int| 0 <= j < i ==> x.between[j] == y.between[j],
        decreases a.between@.len() - i,
    {
        let (p, q) = (&a.between[i], &b.between[i]);
        proof {
            assert(x.between[i as int] == p@);
            assert(y.between[i as int] == q@);
        }
        if !same(p.from.as_str(), q.from.as_str()) || !same(p.to.as_str(), q.to.as_str())
            || p.link != q.link {
            return false;
        }
        i += 1;
    }
    proof {
        assert(x.sets =~= y.sets);
        assert(x.between =~= y.between);
    }
    true
}

// ---------------------------------------------------------------------------
// The topology of a state
// ---------------------------------------------------------------------------
/// What a topology is gathered into.
pub struct GatherV {
    pub ports: Map<Seq<char>, Seq<PortV>>,
    pub links: Map<(Seq<char>, Seq<char>), u64>,
    pub free_gpus: Map<Seq<char>, u64>,
    pub hosts: Map<Seq<char>, Seq<char>>,
}

/// What a topology holds, without its islands.
pub open spec fn gathered(t: Topology) -> GatherV {
    GatherV {
        ports: t@.ports,
        links: t@.links,
        free_gpus: t@.free_gpus,
        hosts: t.hosts.deep_view(),
    }
}

/// A node's addresses as ports, with the tags and the interface of each.
pub open spec fn ports_of(
    addrs: Seq<Seq<char>>,
    tags: Map<Seq<char>, Seq<Seq<char>>>,
    ifaces: Map<Seq<char>, Seq<char>>,
) -> Seq<PortV> {
    Seq::new(
        addrs.len(),
        |i: int|
            PortV {
                addr: addrs[i],
                iface: if ifaces.contains_key(addrs[i]) {
                    Some(ifaces[addrs[i]])
                } else {
                    None
                },
                tags: if tags.contains_key(addrs[i]) {
                    tags[addrs[i]]
                } else {
                    Seq::empty()
                },
            },
    )
}

/// With a node recorded.
pub open spec fn with_node(
    g: GatherV,
    node: Seq<char>,
    host: Seq<char>,
    ports: Seq<PortV>,
) -> GatherV {
    GatherV {
        ports: if ports.len() > 0 {
            g.ports.insert(node, ports)
        } else {
            g.ports
        },
        hosts: g.hosts.insert(node, host),
        ..g
    }
}

/// The links of one near address that answered, with those of `keys` added.
pub open spec fn with_pairs(
    links: Map<(Seq<char>, Seq<char>), u64>,
    near: Seq<char>,
    m: Map<Seq<char>, PairV>,
    keys: Seq<Seq<char>>,
) -> Map<(Seq<char>, Seq<char>), u64>
    decreases keys.len(),
{
    if keys.len() == 0 {
        links
    } else {
        let had = with_pairs(links, near, m, keys.drop_last());
        let far = keys.last();
        if m[far].ok {
            had.insert((near, far), m[far].rtt_ms)
        } else {
            had
        }
    }
}

/// The links of a peer's probes that answered, with those from `keys` added.
pub open spec fn with_probes(
    links: Map<(Seq<char>, Seq<char>), u64>,
    m: Map<Seq<char>, Map<Seq<char>, PairV>>,
    keys: Seq<Seq<char>>,
) -> Map<(Seq<char>, Seq<char>), u64>
    decreases keys.len(),
{
    if keys.len() == 0 {
        links
    } else {
        let near = keys.last();
        with_pairs(
            with_probes(links, m, keys.drop_last()),
            near,
            m[near],
            ordered(m[near].dom()),
        )
    }
}

/// The links of one near address in a snapshot that answered.
pub open spec fn with_told_pairs(
    links: Map<(Seq<char>, Seq<char>), u64>,
    near: Seq<char>,
    m: Map<Seq<char>, JsonV>,
    keys: Seq<Seq<char>>,
) -> Map<(Seq<char>, Seq<char>), u64>
    decreases keys.len(),
{
    if keys.len() == 0 {
        links
    } else {
        let had = with_told_pairs(links, near, m, keys.drop_last());
        let far = keys.last();
        if m[far].field("ok"@).is_true() {
            had.insert(
                (near, far),
                match m[far].field("rtt_ms"@).uint() {
                    Some(n) => n,
                    None => 0,
                },
            )
        } else {
            had
        }
    }
}

/// The links of a table of probes in a snapshot that answered.
pub open spec fn with_told_probes(
    links: Map<(Seq<char>, Seq<char>), u64>,
    m: Map<Seq<char>, JsonV>,
    keys: Seq<Seq<char>>,
) -> Map<(Seq<char>, Seq<char>), u64>
    decreases keys.len(),
{
    if keys.len() == 0 {
        links
    } else {
        let near = keys.last();
        with_told_pairs(
            with_told_probes(links, m, keys.drop_last()),
            near,
            m[near].fields(),
            ordered(m[near].fields().dom()),
        )
    }
}

/// The links that a snapshot's live peers probed. A dead peer's last probes
/// describe a box that has since gone.
pub open spec fn with_told_peers(
    links: Map<(Seq<char>, Seq<char>), u64>,
    m: Map<Seq<char>, JsonV>,
    keys: Seq<Seq<char>>,
) -> Map<(Seq<char>, Seq<char>), u64>
    decreases keys.len(),
{
    if keys.len() == 0 {
        links
    } else {
        let had = with_told_peers(links, m, keys.drop_last());
        let q = m[keys.last()];
        if q.field("alive"@).is_true() {
            let probes = q.field("probes"@).fields();
            with_told_probes(had, probes, ordered(probes.dom()))
        } else {
            had
        }
    }
}

/// With a live peer recorded: its addresses, the links probed to it, and those
/// its last snapshot tells of.
pub open spec fn with_peer(g: GatherV, p: PeerV) -> GatherV {
    let h = with_node(
        g,
        p.node_id,
        p.node_ip,
        ports_of(p.addrs, p.addr_tags, p.addr_ifaces),
    );
    let told = p.last_status.field("peers"@).fields();
    GatherV {
        links: with_told_peers(
            with_probes(h.links, p.probe_pairs, ordered(p.probe_pairs.dom())),
            told,
            ordered(told.dom()),
        ),
        ..h
    }
}

/// With the live peers of `keys` recorded.
pub open spec fn with_peers(
    g: GatherV,
    peers: Map<Seq<char>, PeerV>,
    keys: Seq<Seq<char>>,
) -> GatherV
    decreases keys.len(),
{
    if keys.len() == 0 {
        g
    } else {
        let had = with_peers(g, peers, keys.drop_last());
        if peers[keys.last()].alive {
            with_peer(had, peers[keys.last()])
        } else {
            had
        }
    }
}

/// With a live agent's free GPUs counted. An agent can register a node no
/// daemon peers for: the address it gave then stands in, and carries no tag,
/// which limits that node to plain links.
pub open spec fn with_agent_node(g: GatherV, s: StateV, key: Seq<char>) -> GatherV {
    let a = s.agents[key];
    let had = if g.free_gpus.contains_key(a.node_id) {
        g.free_gpus[a.node_id]
    } else {
        0
    };
    GatherV {
        free_gpus: g.free_gpus.insert(
            a.node_id,
            capped(had as nat + s.free_gpus(key).len()),
        ),
        ports: if g.ports.contains_key(a.node_id) {
            g.ports
        } else {
            g.ports.insert(
                a.node_id,
                seq![PortV { addr: a.node_ip, iface: None, tags: Seq::empty() }],
            )
        },
        hosts: if g.hosts.contains_key(a.node_id) {
            g.hosts
        } else {
            g.hosts.insert(a.node_id, a.node_ip)
        },
        ..g
    }
}

/// With the live agents of `keys` counted. A node with no agent has no GPUs to
/// give.
pub open spec fn with_agents(g: GatherV, s: StateV, keys: Seq<Seq<char>>) -> GatherV
    decreases keys.len(),
{
    if keys.len() == 0 {
        g
    } else {
        let had = with_agents(g, s, keys.drop_last());
        if s.agents[keys.last()].alive {
            with_agent_node(had, s, keys.last())
        } else {
            had
        }
    }
}

/// Nothing gathered yet.
pub open spec fn nothing() -> GatherV {
    GatherV {
        ports: Map::empty(),
        links: Map::empty(),
        free_gpus: Map::empty(),
        hosts: Map::empty(),
    }
}

/// What a state says of the topology.
pub open spec fn gather(s: StateV, local: LocalV) -> GatherV {
    let own = with_node(
        nothing(),
        s.node_id,
        s.hostname,
        ports_of(local.addrs, local.addr_tags, local.addr_ifaces),
    );
    with_agents(
        with_peers(own, s.peers, ordered(s.peers.dom())),
        s,
        ordered(s.agents.dom()),
    )
}

/// The topology as a daemon currently sees it.
pub open spec fn topology_of(s: StateV, local: LocalV) -> TopologyV {
    let g = gather(s, local);
    TopologyV {
        islands: Seq::new(s.islands.len(), |i: int| s.islands[i].nodes),
        ports: g.ports,
        links: g.links,
        nodes: ordered(g.free_gpus.dom()),
        free_gpus: g.free_gpus,
    }
}

fn make_ports(addrs: &Vec<String>, tags: &Dict<Vec<String>>, ifaces: &Dict<String>) -> (r: Vec<
    Port,
>)
    ensures
        port_views(r@) == ports_of(texts(addrs@), tags.deep_view(), ifaces.deep_view()),
{
    let ghost want = ports_of(texts(addrs@), tags.deep_view(), ifaces.deep_view());
    let mut out: Vec<Port> = Vec::new();
    let mut i: usize = 0;
    while i < addrs.len()
        invariant
            want == ports_of(texts(addrs@), tags.deep_view(), ifaces.deep_view()),
            i <= addrs@.len(),
            out@.len() == i,
            forall|j: int| 0 <= j < i ==> (#[trigger] out@[j])@ == want[j],
        decreases addrs@.len() - i,
    {
        let a = addrs[i].as_str();
        let iface = match ifaces.get(a) {
            Some(n) => Some(n.clone()),
            None => None,
        };
        let t = match tags.get(a) {
            Some(v) => copied(v),
            None => Vec::new(),
        };
        proof {
            if tags@.contains_key(a@) {
                assert(texts(t@) =~= tags.deep_view()[a@]);
            } else {
                assert(texts(t@) =~= Seq::<Seq<char>>::empty());
            }
        }
        out.push(Port { addr: addrs[i].clone(), iface, tags: t });
        i += 1;
    }
    proof {
        assert(port_views(out@) =~= want);
    }
    out
}

fn record(
    t: &mut Topology,
    node: &str,
    host: &str,
    addrs: &Vec<String>,
    tags: &Dict<Vec<String>>,
    ifaces: &Dict<String>,
)
    ensures
        gathered(*final(t)) == with_node(
            gathered(*old(t)),
            node@,
            host@,
            ports_of(texts(addrs@), tags.deep_view(), ifaces.deep_view()),
        ),
        final(t).islands == old(t).islands,
{
    let ghost was = gathered(*t);
    let ports = make_ports(addrs, tags, ifaces);
    let ghost pv = port_views(ports@);
    let some = ports.len() > 0;
    if some {
        t.ports.insert(node.to_string(), ports);
        proof {
            assert(t@.ports =~= was.ports.insert(node@, pv));
        }
    }
    t.hosts.insert(node.to_string(), host.to_string());
    proof {
        assert(t.hosts.deep_view() =~= was.hosts.insert(node@, host@));
        if !some {
            assert(t@.ports =~= was.ports);
        }
        assert(t@.links =~= was.links);
    }
}

fn add_pairs(t: &mut Topology, near: &str, m: &Dict<PairProbe>)
    ensures
        gathered(*final(t)) == (GatherV {
            links: with_pairs(
                gathered(*old(t)).links,
                near@,
                m.deep_view(),
                ordered(m.deep_view().dom()),
            ),
            ..gathered(*old(t))
        }),
        final(t).islands == old(t).islands,
{
    let ghost g = gathered(*t);
    let n: usize = m.len();
    let ghost order = m.order();
    let mut i: usize = 0;
    proof {
        assert(m.deep_view().dom() =~= m@.dom());
    }
    while i < n
        invariant
            i <= n,
            n == order.len(),
            order == m.order(),
            gathered(*t) == (GatherV {
                links: with_pairs(g.links, near@, m.deep_view(), order.take(i as int)),
                ..g
            }),
            t.islands == old(t).islands,
        decreases n - i,
    {
        let r = m.val_at(i);
        proof {
            assert(order.take(i + 1).drop_last() =~= order.take(i as int));
            assert(order.take(i + 1).last() == order[i as int]);
            assert(m.deep_view()[order[i as int]] == r.deep_view());
        }
        if r.ok {
            t.link(near.to_string(), m.key_at(i).clone(), r.rtt_ms);
        }
        i += 1;
    }
    proof {
        assert(order.take(order.len() as int) =~= order);
    }
}

fn add_probes(t: &mut Topology, m: &Dict<Dict<PairProbe>>)
    ensures
        gathered(*final(t)) == (GatherV {
            links: with_probes(
                gathered(*old(t)).links,
                m.deep_view(),
                ordered(m.deep_view().dom()),
            ),
            ..gathered(*old(t))
        }),
        final(t).islands == old(t).islands,
{
    let ghost g = gathered(*t);
    let n: usize = m.len();
    let ghost order = m.order();
    let mut i: usize = 0;
    proof {
        assert(m.deep_view().dom() =~= m@.dom());
    }
    while i < n
        invariant
            i <= n,
            n == order.len(),
            order == m.order(),
            gathered(*t) == (GatherV {
                links: with_probes(g.links, m.deep_view(), order.take(i as int)),
                ..g
            }),
            t.islands == old(t).islands,
        decreases n - i,
    {
        let row = m.val_at(i);
        proof {
            assert(order.take(i + 1).drop_last() =~= order.take(i as int));
            assert(order.take(i + 1).last() == order[i as int]);
            assert(m.deep_view()[order[i as int]] == row.deep_view());
        }
        add_pairs(t, m.key_at(i).as_str(), row);
        i += 1;
    }
    proof {
        assert(order.take(order.len() as int) =~= order);
    }
}

fn add_told_pairs(t: &mut Topology, near: &str, m: &Dict<Json>)
    ensures
        gathered(*final(t)) == (GatherV {
            links: with_told_pairs(
                gathered(*old(t)).links,
                near@,
                m.deep_view(),
                ordered(m.deep_view().dom()),
            ),
            ..gathered(*old(t))
        }),
        final(t).islands == old(t).islands,
{
    let ghost g = gathered(*t);
    let n: usize = m.len();
    let ghost order = m.order();
    let mut i: usize = 0;
    proof {
        assert(m.deep_view().dom() =~= m@.dom());
    }
    while i < n
        invariant
            i <= n,
            n == order.len(),
            order == m.order(),
            gathered(*t) == (GatherV {
                links: with_told_pairs(g.links, near@, m.deep_view(), order.take(i as int)),
                ..g
            }),
            t.islands == old(t).islands,
        decreases n - i,
    {
        let r = m.val_at(i);
        proof {
            assert(order.take(i + 1).drop_last() =~= order.take(i as int));
            assert(order.take(i + 1).last() == order[i as int]);
            assert(m.deep_view()[order[i as int]] == r.v());
        }
        if r.true_at("ok") {
            let ms: u64 = match r.uint_at("rtt_ms") {
                Some(n) => n,
                None => 0,
            };
            t.link(near.to_string(), m.key_at(i).clone(), ms);
        }
        i += 1;
    }
    proof {
        assert(order.take(order.len() as int) =~= order);
    }
}

fn add_told_probes(t: &mut Topology, q: &Json)
    ensures
        gathered(*final(t)) == (GatherV {
            links: with_told_probes(
                gathered(*old(t)).links,
                q.v().field("probes"@).fields(),
                ordered(q.v().field("probes"@).fields().dom()),
            ),
            ..gathered(*old(t))
        }),
        final(t).islands == old(t).islands,
{
    let ghost g = gathered(*t);
    let none = Json::object();
    let m = match q.fields_at("probes") {
        Some(d) => d,
        None => &none,
    };
    proof {
        assert(m.deep_view() == q.v().field("probes"@).fields());
        assert(m.deep_view().dom() =~= m@.dom());
    }
    let n: usize = m.len();
    let ghost order = m.order();
    let mut i: usize = 0;
    while i < n
        invariant
            i <= n,
            n == order.len(),
            order == m.order(),
            gathered(*t) == (GatherV {
                links: with_told_probes(g.links, m.deep_view(), order.take(i as int)),
                ..g
            }),
            t.islands == old(t).islands,
        decreases n - i,
    {
        let row = m.val_at(i);
        proof {
            assert(order.take(i + 1).drop_last() =~= order.take(i as int));
            assert(order.take(i + 1).last() == order[i as int]);
            assert(m.deep_view()[order[i as int]] == row.v());
        }
        if let Json::Obj(d) = row {
            add_told_pairs(t, m.key_at(i).as_str(), d);
        } else {
            proof {
                let e = Map::<Seq<char>, JsonV>::empty();
                assert(row.v().fields() == e);
                let none_listed = Seq::<Seq<char>>::empty();
                assert(lists(none_listed, e.dom()));
                crate::common::dict::lemma_ordered(none_listed, e.dom());
            }
        }
        i += 1;
    }
    proof {
        assert(order.take(order.len() as int) =~= order);
    }
}

fn add_told_peers(t: &mut Topology, status: &Json)
    ensures
        gathered(*final(t)) == (GatherV {
            links: with_told_peers(
                gathered(*old(t)).links,
                status.v().field("peers"@).fields(),
                ordered(status.v().field("peers"@).fields().dom()),
            ),
            ..gathered(*old(t))
        }),
        final(t).islands == old(t).islands,
{
    let ghost g = gathered(*t);
    let none = Json::object();
    let m = match status.fields_at("peers") {
        Some(d) => d,
        None => &none,
    };
    proof {
        assert(m.deep_view() == status.v().field("peers"@).fields());
        assert(m.deep_view().dom() =~= m@.dom());
    }
    let n: usize = m.len();
    let ghost order = m.order();
    let mut i: usize = 0;
    while i < n
        invariant
            i <= n,
            n == order.len(),
            order == m.order(),
            gathered(*t) == (GatherV {
                links: with_told_peers(g.links, m.deep_view(), order.take(i as int)),
                ..g
            }),
            t.islands == old(t).islands,
        decreases n - i,
    {
        let q = m.val_at(i);
        proof {
            assert(order.take(i + 1).drop_last() =~= order.take(i as int));
            assert(order.take(i + 1).last() == order[i as int]);
            assert(m.deep_view()[order[i as int]] == q.v());
        }
        if q.true_at("alive") {
            add_told_probes(t, q);
        }
        i += 1;
    }
    proof {
        assert(order.take(order.len() as int) =~= order);
    }
}

fn add_peer(t: &mut Topology, p: &PeerInfo)
    ensures
        gathered(*final(t)) == with_peer(gathered(*old(t)), p.deep_view()),
        final(t).islands == old(t).islands,
{
    record(
        t,
        p.node_id.as_str(),
        p.node_ip.as_str(),
        &p.addrs,
        &p.addr_tags,
        &p.addr_ifaces,
    );
    add_probes(t, &p.probe_pairs);
    add_told_peers(t, &p.last_status);
}

fn add_agent(t: &mut Topology, st: &State, i: usize)
    requires
        i < st.agents.order().len(),
    ensures
        gathered(*final(t)) == with_agent_node(
            gathered(*old(t)),
            st@,
            st.agents.order()[i as int],
        ),
        final(t).islands == old(t).islands,
{
    let ghost g = gathered(*t);
    let ghost key = st.agents.order()[i as int];
    let a = st.agents.val_at(i);
    let free = st.free_gpus_of(st.agents.key_at(i).as_str());
    proof {
        assert(st@.agents[key] == a.deep_view());
    }
    let had: u64 = match t.free_gpus.get(a.node_id.as_str()) {
        Some(n) => *n,
        None => 0,
    };
    let more: u64 = free.len() as u64;
    let sum: u64 = if had > u64::MAX - more {
        u64::MAX
    } else {
        had + more
    };
    t.free_gpus.insert(a.node_id.clone(), sum);
    if !t.ports.contains(a.node_id.as_str()) {
        let mut ports: Vec<Port> = Vec::new();
        let no_tags: Vec<String> = Vec::new();
        proof {
            assert(texts(no_tags@) =~= Seq::<Seq<char>>::empty());
        }
        ports.push(Port { addr: a.node_ip.clone(), iface: None, tags: no_tags });
        let ghost pv = port_views(ports@);
        t.ports.insert(a.node_id.clone(), ports);
        proof {
            assert(pv =~= seq![PortV { addr: a.node_ip@, iface: None, tags: Seq::empty() }]);
            assert(t@.ports =~= g.ports.insert(a.node_id@, pv));
        }
    } else {
        proof {
            assert(t@.ports =~= g.ports);
        }
    }
    if !t.hosts.contains(a.node_id.as_str()) {
        t.hosts.insert(a.node_id.clone(), a.node_ip.clone());
        proof {
            assert(t.hosts.deep_view() =~= g.hosts.insert(a.node_id@, a.node_ip@));
        }
    }
    proof {
        assert(t@.links =~= g.links);
    }
}

/// The topology as this daemon currently sees it.
///
/// Ports come from the peer table, which carries each node's addresses, the
/// operator's tags and the interface each sits on. Links come from the
/// probes, self to peer and peer to peer alike, so a fabric this daemon is
/// not on still counts.
pub fn topology(st: &State, local: &LocalAddrs) -> (r: Topology)
    ensures
        r@ == topology_of(st@, local.deep_view()),
        r.hosts.deep_view() == gather(st@, local.deep_view()).hosts,
{
    let mut t = Topology::new();
    proof {
        assert(t@.ports =~= Map::<Seq<char>, Seq<PortV>>::empty());
        assert(t@.links =~= Map::<(Seq<char>, Seq<char>), u64>::empty());
        assert(t.hosts.deep_view() =~= Map::<Seq<char>, Seq<char>>::empty());
        assert(gathered(t) == nothing());
    }
    let mut i: usize = 0;
    while i < st.fabrics.islands.len()
        invariant
            i <= st.fabrics.islands@.len(),
            t.islands@.len() == i,
            gathered(t) == nothing(),
            forall|j: int|
                0 <= j < i ==> texts((#[trigger] t.islands@[j]).nodes@) == texts(
                    st.fabrics.islands@[j].nodes@,
                ),
        decreases st.fabrics.islands@.len() - i,
    {
        let ghost was = t.islands@;
        t.islands.push(st.fabrics.islands[i].copy());
        proof {
            let isl = t.islands@[i as int];
            assert(isl.deep_view().nodes == st.fabrics.islands@[i as int].deep_view().nodes);
            assert forall|j: int| 0 <= j < i + 1 implies texts((#[trigger] t.islands@[j]).nodes@)
                == texts(st.fabrics.islands@[j].nodes@) by {
                if j < i {
                    assert(t.islands@[j] == was[j]);
                }
            }
            assert(t@.ports =~= nothing().ports);
            assert(t@.links =~= nothing().links);
        }
        i += 1;
    }
    let ghost isl = t.islands;
    record(
        &mut t,
        st.node_id.as_str(),
        st.hostname.as_str(),
        &local.addrs,
        &local.addr_tags,
        &local.addr_ifaces,
    );
    let ghost own = gathered(t);
    let n: usize = st.peers.len();
    let ghost order = st.peers.order();
    let mut i: usize = 0;
    proof {
        assert(st@.peers.dom() =~= st.peers@.dom());
    }
    while i < n
        invariant
            i <= n,
            n == order.len(),
            order == st.peers.order(),
            t.islands == isl,
            gathered(t) == with_peers(own, st@.peers, order.take(i as int)),
        decreases n - i,
    {
        let p = st.peers.val_at(i);
        proof {
            assert(order.take(i + 1).drop_last() =~= order.take(i as int));
            assert(order.take(i + 1).last() == order[i as int]);
            assert(st@.peers[order[i as int]] == p.deep_view());
        }
        if p.alive {
            add_peer(&mut t, p);
        }
        i += 1;
    }
    let ghost met = gathered(t);
    proof {
        assert(order.take(order.len() as int) =~= order);
        assert(st@.agents.dom() =~= st.agents@.dom());
    }
    let n: usize = st.agents.len();
    let ghost order = st.agents.order();
    let mut i: usize = 0;
    while i < n
        invariant
            i <= n,
            n == order.len(),
            order == st.agents.order(),
            t.islands == isl,
            gathered(t) == with_agents(met, st@, order.take(i as int)),
        decreases n - i,
    {
        let a = st.agents.val_at(i);
        proof {
            assert(order.take(i + 1).drop_last() =~= order.take(i as int));
            assert(order.take(i + 1).last() == order[i as int]);
            assert(st@.agents[order[i as int]] == a.deep_view());
        }
        if a.alive {
            add_agent(&mut t, st, i);
        }
        i += 1;
    }
    proof {
        assert(order.take(order.len() as int) =~= order);
        let want = topology_of(st@, local.deep_view());
        assert(t@.islands =~= want.islands);
    }
    t
}

// ---------------------------------------------------------------------------
// Holding a claim
// ---------------------------------------------------------------------------
/// Why a claim is refused: a word a program can match on, a sentence, and
/// where to go instead.
#[derive(Debug, PartialEq, Eq)]
pub struct Refusal {
    pub code: String,
    pub error: String,
    pub head: String,
}

/// A `Refusal` as a mathematical value.
pub struct RefusalV {
    pub code: Seq<char>,
    pub error: Seq<char>,
    pub head: Seq<char>,
}

impl View for Refusal {
    type V = RefusalV;

    open spec fn view(&self) -> RefusalV {
        RefusalV { code: self.code@, error: self.error@, head: self.head@ }
    }
}

/// A refusal that sends the caller nowhere else.
pub open spec fn plain_refusal(code: Seq<char>, error: Seq<char>) -> RefusalV {
    RefusalV { code, error, head: Seq::empty() }
}

pub(crate) fn refused(code: &str, error: String) -> (r: Refusal)
    ensures
        r@ == plain_refusal(code@, error@),
{
    let head = String::new();
    proof {
        assert(head@ =~= Seq::<char>::empty());
    }
    Refusal { code: code.to_string(), error, head }
}

/// The refusal of a daemon that is not the head.
pub open spec fn not_head(s: StateV) -> RefusalV {
    let addr = match head_addr(s) {
        Some(a) => a,
        None => Seq::empty(),
    };
    RefusalV {
        code: "not_head"@,
        error: "this node is not the head. Send claims to "@ + s.head_node_id + " at "@ + addr,
        head: addr,
    }
}

/// Whether a claim of a group is held.
pub open spec fn is_held(s: StateV, group: Seq<char>, name: Seq<char>) -> bool {
    s.claims.contains_key(group) && s.claims[group].contains_key(name)
}

/// The claims with one of a group's stored.
pub open spec fn with_claim(
    s: StateV,
    group: Seq<char>,
    name: Seq<char>,
    c: ClaimV,
) -> Map<Seq<char>, Map<Seq<char>, ClaimV>> {
    let had = if s.claims.contains_key(group) {
        s.claims[group]
    } else {
        Map::empty()
    };
    s.claims.insert(group, had.insert(name, c))
}

/// What a claim is answered, and the state after it.
///
/// The name is the reservation: a second holder of one name gets the view that
/// the first was given. Another shape under a name already held is refused, as
/// re-solving would move nodes under whoever claimed first. Only the head
/// answers.
pub open spec fn claim_answer(
    s: StateV,
    local: LocalV,
    client: Seq<char>,
    group: Seq<char>,
    name: Seq<char>,
    shape: JsonV,
) -> (StateV, Result<(u64, JsonV), RefusalV>) {
    if trimmed(name).len() == 0 {
        (s, Err(plain_refusal("bad_claim_name"@, "a claim needs a name"@)))
    } else if s.head_node_id != s.node_id {
        (s, Err(not_head(s)))
    } else if is_held(s, group, name) {
        let c = s.claims[group][name];
        if !same_shape(shape, c) {
            (
                s,
                Err(
                    plain_refusal(
                        "shape_conflict"@,
                        "claim "@ + debug_text(name)
                            + " is held for a different shape. Use another name"@,
                    ),
                ),
            )
        } else {
            (
                StateV {
                    claims: with_claim(
                        s,
                        group,
                        name,
                        ClaimV { holders: c.holders.insert(client), ..c },
                    ),
                    ..s
                },
                Ok((c.generation, c.view)),
            )
        }
    } else {
        match request_of(shape) {
            Err(e) => (s, Err(plain_refusal("bad_shape"@, e))),
            Ok(req) => match solved(topology_of(s, local), req) {
                Err(e) => (s, Err(plain_refusal("unsolvable_claim"@, e))),
                Ok(sol) => {
                    let generation = next(s.claim_generation);
                    let c = ClaimV {
                        shape: req,
                        exact: spelled(shape),
                        view: solution_doc(sol, gather(s, local).hosts),
                        generation,
                        holders: set![client],
                    };
                    (
                        StateV {
                            claims: with_claim(s, group, name, c),
                            claim_generation: generation,
                            ..s
                        }.emit(
                            "claim_solved"@,
                            seq![row_set(group, "claims"@, name, claim_row_of(c))],
                            Seq::empty(),
                        ),
                        Ok((generation, c.view)),
                    )
                },
            },
        }
    }
}

fn store_claim(st: &mut State, group: &str, name: &str, c: ClaimInfo)
    ensures
        final(st)@ == (StateV {
            claims: with_claim(old(st)@, group@, name@, c.deep_view()),
            ..old(st)@
        }),
{
    let ghost s = st@;
    let ghost cv = c.deep_view();
    let known = st.claims.contains(group);
    if known {
        if let Some(names) = st.claims.get_mut(group) {
            names.insert(name.to_string(), c);
        }
    } else {
        let mut names: Dict<ClaimInfo> = Dict::new();
        names.insert(name.to_string(), c);
        proof {
            assert(names.deep_view() =~= Map::<Seq<char>, ClaimV>::empty().insert(name@, cv));
        }
        st.claims.insert(group.to_string(), names);
    }
    proof {
        let want = with_claim(s, group@, name@, cv);
        assert(st@.claims.dom() =~= want.dom());
        assert(st@.claims[group@] =~= want[group@]);
        assert(st@.claims =~= want);
    }
}

/// Solve a claim on `name` the first time, and repeat that view to every
/// later holder.
///
/// The name is the reservation. A second holder of one name is not a second
/// placement, so ranks that claim the same name agree on their nodes without
/// a coordinator. A holder that requests a different shape under a name
/// already held is refused.
///
/// Only the head replies. Two daemons solving the same name against their
/// own views could each hand out a placement. The error gives the head so a
/// caller can go there.
pub fn claim(
    st: &mut State,
    local: &LocalAddrs,
    client: &str,
    group: &str,
    name: &str,
    shape: &Json,
) -> (r: Result<(u64, Json), Refusal>)
    ensures
        ({
            let (t, want) = claim_answer(
                old(st)@,
                local.deep_view(),
                client@,
                group@,
                name@,
                shape.v(),
            );
            &&& final(st)@ == t
            &&& match r {
                Ok((g, j)) => want == Ok::<(u64, JsonV), RefusalV>((g, j.v())),
                Err(e) => want == Err::<(u64, JsonV), RefusalV>(e@),
            }
        }),
{
    let ghost s = st@;
    if trim(name).is_empty() {
        return Err(refused("bad_claim_name", "a claim needs a name".to_string()));
    }
    if !same(st.head_node_id.as_str(), st.node_id.as_str()) {
        let head = match head_address(st) {
            Some(a) => a,
            None => {
                let none = String::new();
                proof {
                    assert(none@ =~= Seq::<char>::empty());
                }
                none
            },
        };
        let mut error = "this node is not the head. Send claims to ".to_string();
        error.append(st.head_node_id.as_str());
        error.append(" at ");
        error.append(head.as_str());
        return Err(Refusal { code: "not_head".to_string(), error, head });
    }
    let asked = parse(shape);
    let exact = spell(shape);
    let held = match st.claims.get(group) {
        Some(names) => names.get(name),
        None => None,
    };
    if let Some(c) = held {
        let fits = match &asked {
            Ok(q) => same_request(q, &c.shape) && same_texts(&exact, &c.exact),
            Err(_) => false,
        };
        proof {
            assert(s.claims[group@][name@] == c.deep_view());
        }
        if !fits {
            let mut error = "claim ".to_string();
            error.append(debug_quoted(name).as_str());
            error.append(" is held for a different shape. Use another name");
            return Err(refused("shape_conflict", error));
        }
        let ghost cv = c.deep_view();
        let generation: u64 = c.generation;
        let view = c.view.copy();
        let ghost want = with_claim(
            s,
            group@,
            name@,
            ClaimV { holders: cv.holders.insert(client@), ..cv },
        );
        if let Some(names) = st.claims.get_mut(group) {
            if let Some(c) = names.get_mut(name) {
                let ghost had = c.holders@.dom();
                c.holders.insert(client.to_string(), ());
                proof {
                    assert(c.holders@.dom() =~= had.insert(client@));
                }
            }
        }
        proof {
            assert(st@.claims[group@] =~= want[group@]);
            assert(st@.claims =~= want);
        }
        return Ok((generation, view));
    }
    let req = match asked {
        Ok(q) => q,
        Err(e) => return Err(refused("bad_shape", e)),
    };
    let topo = topology(st, local);
    let solution = match solve(&topo, &req) {
        Ok(x) => x,
        Err(e) => return Err(refused("unsolvable_claim", e)),
    };
    let generation: u64 = bump(st.claim_generation);
    st.claim_generation = generation;
    let view = solution.to_json(&topo);
    let mut holders: Dict<()> = Dict::new();
    holders.insert(client.to_string(), ());
    proof {
        assert(holders@.dom() =~= set![client@]);
    }
    let c = ClaimInfo { shape: req, exact, view: view.copy(), generation, holders };
    let ghost cv = c.deep_view();
    let mut patch: Vec<Patch> = Vec::new();
    patch.push(row_patch(group, "claims", name, Some(claim_row(&c))));
    proof {
        assert(patch_views(patch@) =~= seq![row_set(group@, "claims"@, name@, claim_row_of(cv))]);
        reveal_strlit("");
        assert(""@ =~= Seq::<char>::empty());
    }
    let ghost mid = st@;
    store_claim(st, group, name, c);
    proof {
        assert(with_claim(mid, group@, name@, cv) =~= with_claim(s, group@, name@, cv));
    }
    st.emit_patch("claim_solved", patch, "");
    proof {
        assert(st@ =~= claim_answer(
            s,
            local.deep_view(),
            client@,
            group@,
            name@,
            shape.v(),
        ).0);
    }
    Ok((generation, view))
}

/// The state after a client gave up its hold on a claim. The claim goes with
/// its last holder.
pub open spec fn released(
    s: StateV,
    client: Seq<char>,
    group: Seq<char>,
    name: Seq<char>,
) -> StateV {
    if !is_held(s, group, name) {
        s
    } else {
        let c = s.claims[group][name];
        let left = ClaimV { holders: c.holders.remove(client), ..c };
        if forall|h: Seq<char>| !left.holders.contains(h) {
            StateV { claims: s.claims.insert(group, s.claims[group].remove(name)), ..s }.emit(
                "claim_released"@,
                seq![row_gone(group, "claims"@, name)],
                Seq::empty(),
            )
        } else {
            StateV { claims: with_claim(s, group, name, left), ..s }.emit(
                "claim_released"@,
                seq![row_set(group, "claims"@, name, claim_row_of(left))],
                Seq::empty(),
            )
        }
    }
}

/// Drop one hold. The claim goes with its last holder, which is how a driver
/// that dies gives its nodes back.
pub fn release(st: &mut State, client: &str, group: &str, name: &str)
    ensures
        final(st)@ == released(old(st)@, client@, group@, name@),
{
    let ghost s = st@;
    let held = match st.claims.get(group) {
        Some(names) => names.contains(name),
        None => false,
    };
    if !held {
        return ;
    }
    let ghost cv = s.claims[group@][name@];
    let ghost left = ClaimV { holders: cv.holders.remove(client@), ..cv };
    let mut empty = false;
    let mut patch: Vec<Patch> = Vec::new();
    if let Some(names) = st.claims.get_mut(group) {
        if let Some(c) = names.get_mut(name) {
            let ghost had = c.holders@;
            c.holders.remove(client);
            let n: usize = c.holders.len();
            empty = n == 0;
            proof {
                assert(c.holders@.dom() =~= had.dom().remove(client@));
                assert(c.deep_view() == left);
                let order = c.holders.order();
                if n == 0 {
                    assert forall|h: Seq<char>| !left.holders.contains(h) by {
                        assert(c.holders@.dom().contains(h) == order.contains(h));
                    }
                } else {
                    assert(order.contains(order[0]));
                    assert(c.holders@.dom().contains(order[0]));
                    assert(left.holders.contains(order[0]));
                }
            }
            if !empty {
                patch.push(row_patch(group, "claims", name, Some(claim_row(c))));
            }
        }
        if empty {
            names.remove(name);
            patch.push(row_patch(group, "claims", name, None));
        }
    }
    proof {
        reveal_strlit("");
        assert(""@ =~= Seq::<char>::empty());
        if empty {
            let want = s.claims.insert(group@, s.claims[group@].remove(name@));
            assert(patch_views(patch@) =~= seq![row_gone(group@, "claims"@, name@)]);
            assert(st@.claims[group@] =~= want[group@]);
            assert(st@.claims =~= want);
        } else {
            let want = with_claim(s, group@, name@, left);
            assert(patch_views(patch@) =~= seq![
                row_set(group@, "claims"@, name@, claim_row_of(left)),
            ]);
            assert(st@.claims[group@] =~= want[group@]);
            assert(st@.claims =~= want);
        }
    }
    st.emit_patch("claim_released", patch, "");
}

/// The state after a client gave up its hold on each of some claims of a
/// group.
pub open spec fn released_names(
    s: StateV,
    client: Seq<char>,
    group: Seq<char>,
    names: Seq<Seq<char>>,
) -> StateV
    decreases names.len(),
{
    if names.len() == 0 {
        s
    } else {
        released(released_names(s, client, group, names.drop_last()), client, group, names.last())
    }
}

/// The state after a client gave up its hold on every claim of some groups,
/// as `at` lists them.
pub open spec fn released_groups(
    s: StateV,
    client: Seq<char>,
    at: StateV,
    groups: Seq<Seq<char>>,
) -> StateV
    decreases groups.len(),
{
    if groups.len() == 0 {
        s
    } else {
        let g = groups.last();
        released_names(
            released_groups(s, client, at, groups.drop_last()),
            client,
            g,
            ordered(at.claims[g].dom()),
        )
    }
}

/// The state after a client gave up every claim.
pub open spec fn all_released(s: StateV, client: Seq<char>) -> StateV {
    released_groups(s, client, s, ordered(s.claims.dom()))
}

fn release_names(st: &mut State, client: &str, group: &str, names: &Vec<String>)
    ensures
        final(st)@ == released_names(old(st)@, client@, group@, texts(names@)),
{
    let ghost s = st@;
    let ghost all = texts(names@);
    let mut i: usize = 0;
    while i < names.len()
        invariant
            i <= names@.len(),
            all == texts(names@),
            st@ == released_names(s, client@, group@, all.take(i as int)),
        decreases names@.len() - i,
    {
        proof {
            assert(all.take(i + 1).drop_last() =~= all.take(i as int));
            assert(all.take(i + 1).last() == names@[i as int]@);
        }
        release(st, client, group, names[i].as_str());
        i += 1;
    }
    proof {
        assert(all.take(all.len() as int) =~= all);
    }
}

/// Drop every claim this client held. This runs where its other resources
/// are reaped, so a disconnect does not need an explicit release.
pub fn release_all(st: &mut State, client: &str)
    ensures
        final(st)@ == all_released(old(st)@, client@),
{
    let ghost s = st@;
    let groups = st.claims.keys();
    let ghost all = texts(groups@);
    let mut names: Vec<Vec<String>> = Vec::new();
    let mut i: usize = 0;
    proof {
        assert(s.claims.dom() =~= st.claims@.dom());
    }
    while i < groups.len()
        invariant
            i <= groups@.len(),
            all == texts(groups@),
            all == st.claims.order(),
            lists(all, st.claims@.dom()),
            s == st@,
            names@.len() == i,
            forall|j: int|
                0 <= j < i ==> texts((#[trigger] names@[j])@) == ordered(s.claims[all[j]].dom()),
        decreases groups@.len() - i,
    {
        proof {
            assert(all.contains(all[i as int]));
            assert(st.claims@.dom().contains(all[i as int]));
        }
        let own = match st.claims.get(groups[i].as_str()) {
            Some(d) => {
                let k = d.keys();
                proof {
                    assert(s.claims[all[i as int]] == d.deep_view());
                    assert(d.deep_view().dom() =~= d@.dom());
                }
                k
            },
            None => Vec::new(),
        };
        names.push(own);
        i += 1;
    }
    let mut i: usize = 0;
    while i < groups.len()
        invariant
            i <= groups@.len(),
            all == texts(groups@),
            names@.len() == groups@.len(),
            forall|j: int|
                0 <= j < names@.len() ==> texts((#[trigger] names@[j])@) == ordered(
                    s.claims[all[j]].dom(),
                ),
            st@ == released_groups(s, client@, s, all.take(i as int)),
        decreases groups@.len() - i,
    {
        proof {
            assert(all.take(i + 1).drop_last() =~= all.take(i as int));
            assert(all.take(i + 1).last() == groups@[i as int]@);
        }
        release_names(st, client, groups[i].as_str(), &names[i]);
        i += 1;
    }
    proof {
        assert(all.take(all.len() as int) =~= all);
    }
}

} // verus!
