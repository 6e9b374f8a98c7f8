//! A snapshot as text, for terminals.

use vstd::prelude::*;
use vstd::string::*;

use crate::common::dict::{lemma_ordered, ordered, Dict};
use crate::common::json::{meaning, metas, Json, JsonV};
use crate::common::show::{show, shown, truth, truth_text};
use crate::common::text::{chars_of, dec, decimal, join, joined, same, texts};
use crate::daemon::ident::{node_address, node_ip_of};
use crate::daemon::mesh::{str_list_at, strings_of};

verus! {

broadcast use meaning;

// ---------------------------------------------------------------------------
// Small pieces
// ---------------------------------------------------------------------------
/// The text of a value, or a stand-in.
pub open spec fn text_or(j: JsonV, other: Seq<char>) -> Seq<char> {
    match j.text() {
        Some(s) => s,
        None => other,
    }
}

fn text_at_or(j: &Json, key: &str, other: &str) -> (r: String)
    ensures
        r@ == text_or(j.v().field(key@), other@),
{
    match j.text_at(key) {
        Some(s) => s.to_string(),
        None => other.to_string(),
    }
}

/// How far apart doubles stand at a whole number.
pub open spec fn spacing(n: nat) -> nat
    decreases n,
{
    if n < 0x20_0000_0000_0000 {
        1
    } else {
        2 * spacing(n / 2)
    }
}

/// A whole number as a double holds it: the nearest one, and of two that are as
/// near the one that is an even multiple of the spacing.
pub open spec fn as_double(n: nat) -> nat {
    let step = spacing(n);
    let below = n / step;
    let over = n % step;
    if 2 * over < step || (2 * over == step && below % 2 == 0) {
        below * step
    } else {
        (below + 1) * step
    }
}

proof fn lemma_spacing(n: nat)
    ensures
        1 <= spacing(n),
        spacing(n) <= n || spacing(n) == 1,
    decreases n,
{
    if n >= 0x20_0000_0000_0000 {
        lemma_spacing(n / 2);
    }
}

fn spacing_of(n: u64) -> (r: u128)
    ensures
        r == spacing(n as nat),
    decreases n,
{
    if n < 0x20_0000_0000_0000 {
        1
    } else {
        proof {
            lemma_spacing((n / 2) as nat);
        }
        2 * spacing_of(n / 2)
    }
}

fn to_double(n: u64) -> (r: u128)
    ensures
        r == as_double(n as nat),
{
    let step: u128 = spacing_of(n);
    proof {
        lemma_spacing(n as nat);
    }
    let wide: u128 = n as u128;
    let below: u128 = wide / step;
    let over: u128 = wide % step;
    proof {
        vstd::arithmetic::div_mod::lemma_fundamental_div_mod(n as int, step as int);
        assert(step * below == below * step) by (nonlinear_arith);
        assert((below + 1) * step == below * step + step) by (nonlinear_arith);
    }
    if 2 * over < step || (2 * over == step && below % 2 == 0) {
        below * step
    } else {
        (below + 1) * step
    }
}

/// How many whole devices a value counts, as a double counts them: what is over is
/// left out, nothing is below zero, and what no `u64` holds is the largest.
pub open spec fn whole_devices(j: JsonV) -> nat {
    match j {
        JsonV::Uint(n) => if as_double(n as nat) > u64::MAX {
            u64::MAX as nat
        } else {
            as_double(n as nat)
        },
        JsonV::Real(_, up, whole) => if whole || up == 0 {
            up as nat
        } else {
            (up - 1) as nat
        },
        _ => 0,
    }
}

fn whole_devices_at(j: &Json, key: &str) -> (r: u64)
    ensures
        r == whole_devices(j.v().field(key@)),
{
    match j.get(key) {
        Some(Json::Uint(n)) => {
            let d: u128 = to_double(*n);
            if d > u64::MAX as u128 {
                u64::MAX
            } else {
                d as u64
            }
        },
        Some(Json::Real(x)) => if x.whole || x.up == 0 {
            x.up
        } else {
            x.up - 1
        },
        _ => 0,
    }
}

/// How many bytes UTF-8 takes for a character.
pub open spec fn width(c: char) -> nat {
    if (c as u32) < 0x80 {
        1
    } else if (c as u32) < 0x800 {
        2
    } else if (c as u32) < 0x10000 {
        3
    } else {
        4
    }
}

/// How many of a text's first characters fit in so many bytes.
pub open spec fn fitting(s: Seq<char>, n: nat) -> nat
    decreases s.len(),
{
    if s.len() == 0 || width(s[0]) > n {
        0
    } else {
        1 + fitting(s.skip(1), (n - width(s[0])) as nat)
    }
}

/// The first of a text's characters, as many as fit in `n` bytes.
pub open spec fn head_of(s: Seq<char>, n: nat) -> Seq<char> {
    s.take(fitting(s, n) as int)
}

/// No more characters fit than there are.
pub proof fn lemma_fitting(s: Seq<char>, n: nat)
    ensures
        fitting(s, n) <= s.len(),
    decreases s.len(),
{
    if s.len() > 0 && width(s[0]) <= n {
        lemma_fitting(s.skip(1), (n - width(s[0])) as nat);
    }
}

fn width_of(c: char) -> (r: usize)
    ensures
        r == width(c),
{
    let n: u32 = c as u32;
    if n < 0x80 {
        1
    } else if n < 0x800 {
        2
    } else if n < 0x10000 {
        3
    } else {
        4
    }
}

fn shortened(s: &str, n: usize) -> (r: String)
    ensures
        r@ == head_of(s@, n as nat),
{
    let cs = chars_of(s);
    let mut left: usize = n;
    let mut i: usize = 0;
    proof {
        assert(s@.skip(0) =~= s@);
    }
    while i < cs.len() && width_of(cs[i]) <= left
        invariant
            i <= cs@.len(),
            cs@ == s@,
            fitting(s@, n as nat) == i + fitting(s@.skip(i as int), left as nat),
        decreases cs@.len() - i,
    {
        proof {
            assert(s@.skip(i as int)[0] == s@[i as int]);
            assert(s@.skip(i as int).skip(1) =~= s@.skip(i + 1));
        }
        left = left - width_of(cs[i]);
        i += 1;
    }
    proof {
        if i < cs@.len() {
            assert(s@.skip(i as int)[0] == s@[i as int]);
        }
        lemma_fitting(s@, n as nat);
    }
    let t = s.substring_char(0, i);
    proof {
        assert(t@ =~= s@.take(i as int));
    }
    t.to_string()
}

proof fn lemma_nothing_in_order(m: Map<Seq<char>, JsonV>)
    requires
        m == Map::<Seq<char>, JsonV>::empty(),
    ensures
        ordered(m.dom()) == Seq::<Seq<char>>::empty(),
{
    assert(m.dom() =~= Set::empty());
    lemma_ordered(Seq::<Seq<char>>::empty(), m.dom());
}

// ---------------------------------------------------------------------------
// The line of totals
// ---------------------------------------------------------------------------
/// The one line that a start-up script greps for. The figures are the sums of the
/// groups' counts, each with one digit after the point.
pub open spec fn totals_line(used: Seq<char>, total: Seq<char>) -> Seq<char> {
    "Resources: "@ + used + "/"@ + total + " GPU ("@ + used + " reserved in placement groups)\n"@
}

// ---------------------------------------------------------------------------
// Peers
// ---------------------------------------------------------------------------
/// One cell of the reachability matrix.
pub open spec fn cell_text(remote: Seq<char>, r: JsonV) -> Seq<char> {
    if r.field("ok"@).is_true() {
        remote + "=ok/"@ + decimal(
            match r.field("rtt_ms"@).uint() {
                Some(n) => n as nat,
                None => 0,
            },
        ) + "ms"@
    } else {
        remote + "=fail"@
    }
}

/// The cells of a row.
pub open spec fn cells(row: Map<Seq<char>, JsonV>) -> Seq<Seq<char>> {
    ordered(row.dom()).map_values(|k: Seq<char>| cell_text(k, row[k]))
}

/// One row of the reachability matrix: what a local address reaches.
pub open spec fn reach_line(local: Seq<char>, row: JsonV) -> Seq<char> {
    "  reach from "@ + local + ": "@ + joined(cells(row.fields()), " "@) + "\n"@
}

/// Some rows of the reachability matrix.
pub open spec fn reach_lines(m: Map<Seq<char>, JsonV>, keys: Seq<Seq<char>>) -> Seq<char>
    decreases keys.len(),
{
    if keys.len() == 0 {
        Seq::empty()
    } else {
        reach_lines(m, keys.drop_last()) + reach_line(keys.last(), m[keys.last()])
    }
}

/// The line of a peer.
pub open spec fn peer_line(id: Seq<char>, p: JsonV, is_head: bool) -> Seq<char> {
    "peer "@ + head_of(id, 8) + "... "@ + text_or(p.field("node_ip"@), "?"@) + " alive="@
        + shown(p.field("alive"@)) + (if is_head {
        " [head]"@
    } else {
        ""@
    }) + "\n"@
}

/// The lines of a peer: how it is, and what this box reaches of it.
pub open spec fn peer_lines(id: Seq<char>, p: JsonV, is_head: bool) -> Seq<char> {
    let probes = p.field("probes"@).fields();
    peer_line(id, p, is_head) + reach_lines(probes, ordered(probes.dom()))
}

/// The lines of some peers.
pub open spec fn peers_lines(m: Map<Seq<char>, JsonV>, keys: Seq<Seq<char>>, head: JsonV) -> Seq<
    char,
>
    decreases keys.len(),
{
    if keys.len() == 0 {
        Seq::empty()
    } else {
        peers_lines(m, keys.drop_last(), head) + peer_lines(
            keys.last(),
            m[keys.last()],
            head.text() == Some(keys.last()),
        )
    }
}

fn show_cells(row: &Dict<Json>) -> (r: Vec<String>)
    ensures
        texts(r@) == cells(row.deep_view()),
{
    let n: usize = row.len();
    let ghost order = row.order();
    let ghost m = row.deep_view();
    let mut out: Vec<String> = Vec::new();
    let mut i: usize = 0;
    while i < n
        invariant
            i <= n,
            n == order.len(),
            order == row.order(),
            m == row.deep_view(),
            out@.len() == i,
            forall|j: int| 0 <= j < i ==> (#[trigger] out@[j])@ == cell_text(order[j], m[order[j]]),
        decreases n - i,
    {
        let c = row.val_at(i);
        proof {
            assert(m[order[i as int]] == c.v());
        }
        let mut s = row.key_at(i).clone();
        if c.true_at("ok") {
            let rtt: u64 = match c.uint_at("rtt_ms") {
                Some(x) => x,
                None => 0,
            };
            s.append("=ok/");
            s.append(dec(rtt).as_str());
            s.append("ms");
        } else {
            s.append("=fail");
        }
        out.push(s);
        i += 1;
    }
    proof {
        assert(m.dom() =~= row@.dom());
        assert(texts(out@) =~= cells(m));
    }
    out
}

fn show_reach(probes: &Dict<Json>, out: &mut String)
    ensures
        final(out)@ == old(out)@ + reach_lines(probes.deep_view(), ordered(probes@.dom())),
{
    let n: usize = probes.len();
    let ghost order = probes.order();
    let ghost m = probes.deep_view();
    let ghost start = out@;
    let mut i: usize = 0;
    proof {
        assert(order.take(0) =~= Seq::<Seq<char>>::empty());
        assert(start + Seq::<char>::empty() =~= start);
    }
    while i < n
        invariant
            i <= n,
            n == order.len(),
            order == probes.order(),
            m == probes.deep_view(),
            out@ == start + reach_lines(m, order.take(i as int)),
        decreases n - i,
    {
        let row = probes.val_at(i);
        proof {
            assert(order.take(i + 1).drop_last() =~= order.take(i as int));
            assert(order.take(i + 1).last() == order[i as int]);
            assert(m[order[i as int]] == row.v());
        }
        let list: Vec<String> = match row {
            Json::Obj(d) => show_cells(d),
            _ => {
                let none: Vec<String> = Vec::new();
                proof {
                    lemma_nothing_in_order(row.v().fields());
                    assert(texts(none@) =~= cells(row.v().fields()));
                }
                none
            },
        };
        let mut s = "  reach from ".to_string();
        s.append(probes.key_at(i).as_str());
        s.append(": ");
        s.append(join(&list, " ").as_str());
        s.append("\n");
        out.append(s.as_str());
        proof {
            let had = reach_lines(m, order.take(i as int));
            assert(start + had + s@ =~= start + (had + s@));
        }
        i += 1;
    }
    proof {
        assert(order.take(order.len() as int) =~= order);
    }
}

fn show_peer(id: &str, p: &Json, is_head: bool, out: &mut String)
    ensures
        final(out)@ == old(out)@ + peer_lines(id@, p.v(), is_head),
{
    let ghost start = out@;
    let none: Dict<Json> = Json::object();
    let mut s = "peer ".to_string();
    s.append(shortened(id, 8).as_str());
    s.append("... ");
    s.append(text_at_or(p, "node_ip", "?").as_str());
    s.append(" alive=");
    match p.get("alive") {
        Some(a) => s.append(show(a).as_str()),
        None => s.append("null"),
    }
    if is_head {
        s.append(" [head]");
    } else {
        s.append("");
    }
    s.append("\n");
    out.append(s.as_str());
    let probes = match p.fields_at("probes") {
        Some(d) => d,
        None => &none,
    };
    proof {
        assert(probes.deep_view() == p.v().field("probes"@).fields());
        assert(probes.deep_view().dom() =~= probes@.dom());
    }
    show_reach(probes, out);
    proof {
        let line = peer_line(id@, p.v(), is_head);
        let probes = p.v().field("probes"@).fields();
        let rest = reach_lines(probes, ordered(probes.dom()));
        assert(start + line + rest =~= start + (line + rest));
    }
}

fn show_peers(data: &Json, out: &mut String)
    ensures
        ({
            let m = data.v().field("peers"@).fields();
            final(out)@ == old(out)@ + peers_lines(
                m,
                ordered(m.dom()),
                data.v().field("head_node_id"@),
            )
        }),
{
    let ghost m = data.v().field("peers"@).fields();
    let ghost head = data.v().field("head_node_id"@);
    let ghost start = out@;
    let none: Dict<Json> = Json::object();
    let peers = match data.fields_at("peers") {
        Some(d) => d,
        None => &none,
    };
    let n: usize = peers.len();
    let ghost order = peers.order();
    let mut i: usize = 0;
    proof {
        assert(peers.deep_view() == m);
        assert(m.dom() =~= peers@.dom());
        assert(order.take(0) =~= Seq::<Seq<char>>::empty());
        assert(start + Seq::<char>::empty() =~= start);
    }
    while i < n
        invariant
            i <= n,
            n == order.len(),
            order == peers.order(),
            m == peers.deep_view(),
            head == data.v().field("head_node_id"@),
            out@ == start + peers_lines(m, order.take(i as int), head),
        decreases n - i,
    {
        let p = peers.val_at(i);
        proof {
            assert(order.take(i + 1).drop_last() =~= order.take(i as int));
            assert(order.take(i + 1).last() == order[i as int]);
            assert(m[order[i as int]] == p.v());
        }
        let id = peers.key_at(i).as_str();
        let is_head = match data.text_at("head_node_id") {
            Some(h) => same(h, id),
            None => false,
        };
        show_peer(id, p, is_head, out);
        proof {
            let had = peers_lines(m, order.take(i as int), head);
            let more = peer_lines(order[i as int], p.v(), is_head);
            assert(start + had + more =~= start + (had + more));
        }
        i += 1;
    }
    proof {
        assert(order.take(order.len() as int) =~= order);
    }
}

// ---------------------------------------------------------------------------
// Fabrics
// ---------------------------------------------------------------------------
/// A fabric's member: its address on the fabric, the one its id names, or its
/// id. Node ids alone are useless to an operator.
pub open spec fn member_text(isl: JsonV, n: Seq<char>) -> Seq<char> {
    match isl.field("addrs"@).field(n).text() {
        Some(a) => a,
        None => match node_address(n) {
            Some(ip) => ip,
            None => n,
        },
    }
}

/// The line of a fabric.
pub open spec fn fabric_line(i: nat, isl: JsonV) -> Seq<char> {
    "fabric "@ + decimal(i) + ": "@ + joined(
        strings_of(isl.field("nodes"@).items()).map_values(|n: Seq<char>| member_text(isl, n)),
        " "@,
    ) + "\n"@
}

/// The lines of some fabrics.
pub open spec fn fabric_lines(v: Seq<JsonV>) -> Seq<char>
    decreases v.len(),
{
    if v.len() == 0 {
        Seq::empty()
    } else {
        fabric_lines(v.drop_last()) + fabric_line((v.len() - 1) as nat, v.last())
    }
}

fn show_member(isl: &Json, n: &str) -> (r: String)
    ensures
        r@ == member_text(isl.v(), n@),
{
    let named = match isl.get("addrs") {
        Some(a) => match a.text_at(n) {
            Some(s) => Some(s.to_string()),
            None => None,
        },
        None => None,
    };
    match named {
        Some(s) => s,
        None => match node_ip_of(n) {
            Some(ip) => ip,
            None => n.to_string(),
        },
    }
}

fn show_fabrics(data: &Json, out: &mut String)
    ensures
        final(out)@ == old(out)@ + fabric_lines(data.v().field("islands"@).items()),
{
    let ghost start = out@;
    let ghost all = data.v().field("islands"@).items();
    proof {
        assert(start + Seq::<char>::empty() =~= start);
    }
    let list = match data.items_at("islands") {
        Some(a) => a,
        None => {
            proof {
                assert(all =~= Seq::<JsonV>::empty());
            }
            return;
        },
    };
    let mut i: usize = 0;
    while i < list.len()
        invariant
            i <= list@.len(),
            all == metas(list@),
            out@ == start + fabric_lines(all.take(i as int)),
        decreases list@.len() - i,
    {
        let isl = &list[i];
        proof {
            assert(all.take(i + 1).drop_last() =~= all.take(i as int));
            assert(all.take(i + 1).last() == isl.v());
        }
        let nodes = str_list_at(isl, "nodes");
        let ghost nv = texts(nodes@);
        let mut names: Vec<String> = Vec::new();
        let mut j: usize = 0;
        while j < nodes.len()
            invariant
                j <= nodes@.len(),
                nv == texts(nodes@),
                names@.len() == j,
                forall|k: int|
                    0 <= k < j ==> (#[trigger] names@[k])@ == member_text(isl.v(), nodes@[k]@),
            decreases nodes@.len() - j,
        {
            names.push(show_member(isl, nodes[j].as_str()));
            j += 1;
        }
        proof {
            assert(texts(names@) =~= nv.map_values(|n: Seq<char>| member_text(isl.v(), n)));
        }
        let mut s = "fabric ".to_string();
        s.append(dec(i as u64).as_str());
        s.append(": ");
        s.append(join(&names, " ").as_str());
        s.append("\n");
        out.append(s.as_str());
        proof {
            let had = fabric_lines(all.take(i as int));
            assert(start + had + s@ =~= start + (had + s@));
        }
        i += 1;
    }
    proof {
        assert(all.take(all.len() as int) =~= all);
    }
}

// ---------------------------------------------------------------------------
// Groups
// ---------------------------------------------------------------------------
/// The vendors of some devices.
pub open spec fn vendors(gpus: Seq<JsonV>) -> Set<Seq<char>>
    decreases gpus.len(),
{
    if gpus.len() == 0 {
        Set::empty()
    } else {
        match gpus.last().field("vendor"@).text() {
            Some(v) => vendors(gpus.drop_last()).insert(v),
            None => vendors(gpus.drop_last()),
        }
    }
}

/// The vendors of an agent's devices: a box may hold two models.
pub open spec fn vendor_text(gpus: Seq<JsonV>) -> Seq<char> {
    if ordered(vendors(gpus)).len() == 0 {
        "?"@
    } else {
        joined(ordered(vendors(gpus)), "+"@)
    }
}

/// The line of an agent.
pub open spec fn agent_line(id: Seq<char>, a: JsonV) -> Seq<char> {
    let gpus = a.field("machine"@).field("gpus"@).items();
    let free = a.field("gpus_free"@).items().len();
    "  agent "@ + id + " node="@ + text_or(a.field("node_ip"@), "?"@) + " container="@ + text_or(
        a.field("container"@),
        "?"@,
    ) + " gpus="@ + decimal(
        if gpus.len() >= free {
            (gpus.len() - free) as nat
        } else {
            0
        },
    ) + "/"@ + decimal(gpus.len()) + " vendor="@ + vendor_text(gpus) + " alive="@ + truth(
        a.field("alive"@).is_true(),
    ) + (if a.field("degraded"@).is_true() {
        " degraded=true"@
    } else {
        ""@
    }) + "\n"@
}

/// The line of a placement group.
pub open spec fn pg_line(id: Seq<char>, p: JsonV) -> Seq<char> {
    "  pg "@ + id + " bundles="@ + decimal(p.field("bundles"@).items().len()) + " state="@
        + text_or(p.field("state"@), "?"@) + "\n"@
}

/// The line of an actor.
pub open spec fn actor_line(id: Seq<char>, a: JsonV) -> Seq<char> {
    "  actor "@ + text_or(a.field("name"@), "?"@) + " ["@ + id + "] node="@ + head_of(
        text_or(a.field("node_id"@), "??????"@),
        6,
    ) + "... pid="@ + decimal(
        match a.field("pid"@).uint() {
            Some(n) => n as nat,
            None => 0,
        },
    ) + " state="@ + text_or(a.field("state"@), "?"@) + "\n"@
}

/// What the rows of a table are.
#[derive(Clone, Copy, PartialEq, Eq, Structural)]
pub enum RowKind {
    Agent,
    Pg,
    Actor,
}

/// The line of a row.
pub open spec fn row_line(kind: RowKind, id: Seq<char>, row: JsonV) -> Seq<char> {
    match kind {
        RowKind::Agent => agent_line(id, row),
        RowKind::Pg => pg_line(id, row),
        RowKind::Actor => actor_line(id, row),
    }
}

/// The lines of some rows.
pub open spec fn row_lines(
    kind: RowKind,
    m: Map<Seq<char>, JsonV>,
    keys: Seq<Seq<char>>,
) -> Seq<char>
    decreases keys.len(),
{
    if keys.len() == 0 {
        Seq::empty()
    } else {
        row_lines(kind, m, keys.drop_last()) + row_line(kind, keys.last(), m[keys.last()])
    }
}

/// The lines of a table.
pub open spec fn table_lines(kind: RowKind, t: JsonV) -> Seq<char> {
    row_lines(kind, t.fields(), ordered(t.fields().dom()))
}

/// The line of a group.
pub open spec fn group_line(name: Seq<char>, g: JsonV) -> Seq<char> {
    "group "@ + name + ": gpus="@ + decimal(whole_devices(g.field("gpus_used"@))) + "/"@
        + decimal(whole_devices(g.field("gpus_total"@))) + "\n"@
}

/// The lines of a group.
pub open spec fn group_lines(name: Seq<char>, g: JsonV) -> Seq<char> {
    group_line(name, g) + table_lines(RowKind::Agent, g.field("agents"@)) + table_lines(
        RowKind::Pg,
        g.field("placement_groups"@),
    ) + table_lines(RowKind::Actor, g.field("actors"@))
}

/// The lines of some groups.
pub open spec fn groups_lines(m: Map<Seq<char>, JsonV>, keys: Seq<Seq<char>>) -> Seq<char>
    decreases keys.len(),
{
    if keys.len() == 0 {
        Seq::empty()
    } else {
        groups_lines(m, keys.drop_last()) + group_lines(keys.last(), m[keys.last()])
    }
}

fn show_vendors(gpus: Option<&Vec<Json>>) -> (r: String)
    ensures
        r@ == vendor_text(
            match gpus {
                Some(v) => metas(v@),
                None => Seq::empty(),
            },
        ),
{
    let mut set: Dict<()> = Dict::new();
    let ghost all = match gpus {
        Some(v) => metas(v@),
        None => Seq::empty(),
    };
    proof {
        assert(set@.dom() =~= Set::<Seq<char>>::empty());
    }
    if let Some(v) = gpus {
        let mut i: usize = 0;
        proof {
            assert(all.take(0) =~= Seq::<JsonV>::empty());
        }
        while i < v.len()
            invariant
                i <= v@.len(),
                all == metas(v@),
                set@.dom() == vendors(all.take(i as int)),
            decreases v@.len() - i,
        {
            proof {
                assert(all.take(i + 1).drop_last() =~= all.take(i as int));
                assert(all.take(i + 1).last() == v@[i as int].v());
            }
            if let Some(s) = v[i].text_at("vendor") {
                let ghost was = set@.dom();
                set.insert(s.to_string(), ());
                proof {
                    assert(set@.dom() =~= was.insert(s@));
                }
            }
            i += 1;
        }
        proof {
            assert(all.take(all.len() as int) =~= all);
        }
    }
    let keys = set.keys();
    proof {
        assert(texts(keys@).len() == keys@.len());
    }
    if keys.len() == 0 {
        "?".to_string()
    } else {
        join(&keys, "+")
    }
}

fn count_at(j: &Json, key: &str) -> (r: usize)
    ensures
        r == j.v().field(key@).items().len(),
{
    match j.items_at(key) {
        Some(a) => {
            proof {
                assert(metas(a@).len() == a@.len());
            }
            a.len()
        },
        None => 0,
    }
}

fn show_row(kind: RowKind, id: &str, row: &Json, out: &mut String)
    ensures
        final(out)@ == old(out)@ + row_line(kind, id@, row.v()),
{
    match kind {
        RowKind::Agent => {
            let gpus: Option<&Vec<Json>> = match row.get("machine") {
                Some(m) => m.items_at("gpus"),
                None => None,
            };
            let ghost gv = row.v().field("machine"@).field("gpus"@).items();
            proof {
                assert(gv =~= (match gpus {
                    Some(v) => metas(v@),
                    None => Seq::empty(),
                }));
            }
            let n: usize = match gpus {
                Some(v) => v.len(),
                None => 0,
            };
            proof {
                assert(n == gv.len());
            }
            let free: usize = count_at(row, "gpus_free");
            let used: usize = if n >= free {
                n - free
            } else {
                0
            };
            let mut s = "  agent ".to_string();
            s.append(id);
            s.append(" node=");
            s.append(text_at_or(row, "node_ip", "?").as_str());
            s.append(" container=");
            s.append(text_at_or(row, "container", "?").as_str());
            s.append(" gpus=");
            s.append(dec(used as u64).as_str());
            s.append("/");
            s.append(dec(n as u64).as_str());
            s.append(" vendor=");
            s.append(show_vendors(gpus).as_str());
            s.append(" alive=");
            s.append(truth_text(row.true_at("alive")));
            if row.true_at("degraded") {
                s.append(" degraded=true");
            } else {
                s.append("");
            }
            s.append("\n");
            out.append(s.as_str());
        },
        RowKind::Pg => {
            let mut s = "  pg ".to_string();
            s.append(id);
            s.append(" bundles=");
            s.append(dec(count_at(row, "bundles") as u64).as_str());
            s.append(" state=");
            s.append(text_at_or(row, "state", "?").as_str());
            s.append("\n");
            out.append(s.as_str());
        },
        RowKind::Actor => {
            let pid: u64 = match row.uint_at("pid") {
                Some(n) => n,
                None => 0,
            };
            let mut s = "  actor ".to_string();
            s.append(text_at_or(row, "name", "?").as_str());
            s.append(" [");
            s.append(id);
            s.append("] node=");
            s.append(shortened(text_at_or(row, "node_id", "??????").as_str(), 6).as_str());
            s.append("... pid=");
            s.append(dec(pid).as_str());
            s.append(" state=");
            s.append(text_at_or(row, "state", "?").as_str());
            s.append("\n");
            out.append(s.as_str());
        },
    }
}

fn show_table(kind: RowKind, g: &Json, key: &str, out: &mut String)
    ensures
        final(out)@ == old(out)@ + table_lines(kind, g.v().field(key@)),
{
    let ghost m = g.v().field(key@).fields();
    let ghost start = out@;
    let none: Dict<Json> = Json::object();
    let d = match g.fields_at(key) {
        Some(d) => d,
        None => &none,
    };
    let n: usize = d.len();
    let ghost order = d.order();
    let mut i: usize = 0;
    proof {
        assert(d.deep_view() == m);
        assert(m.dom() =~= d@.dom());
        assert(order.take(0) =~= Seq::<Seq<char>>::empty());
        assert(start + Seq::<char>::empty() =~= start);
    }
    while i < n
        invariant
            i <= n,
            n == order.len(),
            order == d.order(),
            m == d.deep_view(),
            out@ == start + row_lines(kind, m, order.take(i as int)),
        decreases n - i,
    {
        let row = d.val_at(i);
        proof {
            assert(order.take(i + 1).drop_last() =~= order.take(i as int));
            assert(order.take(i + 1).last() == order[i as int]);
            assert(m[order[i as int]] == row.v());
        }
        show_row(kind, d.key_at(i).as_str(), row, out);
        proof {
            let had = row_lines(kind, m, order.take(i as int));
            let line = row_line(kind, order[i as int], row.v());
            assert(start + had + line =~= start + (had + line));
        }
        i += 1;
    }
    proof {
        assert(order.take(order.len() as int) =~= order);
    }
}

fn show_group(name: &str, g: &Json) -> (r: String)
    ensures
        r@ == group_line(name@, g.v()),
{
    let mut s = "group ".to_string();
    s.append(name);
    s.append(": gpus=");
    s.append(dec(whole_devices_at(g, "gpus_used")).as_str());
    s.append("/");
    s.append(dec(whole_devices_at(g, "gpus_total")).as_str());
    s.append("\n");
    s
}

fn show_groups(groups: &Dict<Json>, out: &mut String)
    ensures
        final(out)@ == old(out)@ + groups_lines(groups.deep_view(), ordered(groups@.dom())),
{
    let n: usize = groups.len();
    let ghost order = groups.order();
    let ghost m = groups.deep_view();
    let ghost start = out@;
    let mut i: usize = 0;
    proof {
        assert(order.take(0) =~= Seq::<Seq<char>>::empty());
        assert(start + Seq::<char>::empty() =~= start);
    }
    while i < n
        invariant
            i <= n,
            n == order.len(),
            order == groups.order(),
            m == groups.deep_view(),
            out@ == start + groups_lines(m, order.take(i as int)),
        decreases n - i,
    {
        let g = groups.val_at(i);
        proof {
            assert(order.take(i + 1).drop_last() =~= order.take(i as int));
            assert(order.take(i + 1).last() == order[i as int]);
            assert(m[order[i as int]] == g.v());
        }
        let s = show_group(groups.key_at(i).as_str(), g);
        out.append(s.as_str());
        show_table(RowKind::Agent, g, "agents", out);
        show_table(RowKind::Pg, g, "placement_groups", out);
        show_table(RowKind::Actor, g, "actors", out);
        proof {
            let had = groups_lines(m, order.take(i as int));
            let a = table_lines(RowKind::Agent, g.v().field("agents"@));
            let b = table_lines(RowKind::Pg, g.v().field("placement_groups"@));
            let c = table_lines(RowKind::Actor, g.v().field("actors"@));
            assert(start + had + s@ + a + b + c =~= start + (had + (s@ + a + b + c)));
        }
        i += 1;
    }
    proof {
        assert(order.take(order.len() as int) =~= order);
    }
}

/// The line of the daemon itself.
pub open spec fn daemon_line(data: JsonV) -> Seq<char> {
    "mentat daemon: "@ + text_or(data.field("control_addr"@), "?"@) + " ("@ + text_or(
        data.field("hostname"@),
        "?"@,
    ) + ")"@ + (if data.field("head_node_id"@) == data.field("node_id"@) {
        " [head]"@
    } else {
        ""@
    }) + "\n"@
}

/// A snapshot as text. `used` and `total` are the figures of the line of totals.
pub open spec fn rendered(data: JsonV, scoped: bool, used: Seq<char>, total: Seq<char>) -> Seq<
    char,
> {
    let groups = data.field("groups"@).fields();
    let peers = data.field("peers"@).fields();
    (if scoped {
        totals_line(used, total)
    } else {
        Seq::empty()
    }) + daemon_line(data) + peers_lines(
        peers,
        ordered(peers.dom()),
        data.field("head_node_id"@),
    ) + fabric_lines(data.field("islands"@).items()) + groups_lines(groups, ordered(groups.dom()))
}

fn same_field(data: &Json, a: &str, b: &str) -> (r: bool)
    ensures
        r == (data.v().field(a@) == data.v().field(b@)),
{
    let null = Json::Null;
    let x = match data.get(a) {
        Some(j) => j,
        None => &null,
    };
    let y = match data.get(b) {
        Some(j) => j,
        None => &null,
    };
    x.same(y)
}

/// Renders a snapshot for terminals. `scoped` says whether the query was scoped
/// to a group; only then does the line of totals come first, the one line that a
/// start-up script greps for. `used` and `total` are what the groups' `gpus_used`
/// and `gpus_total` sum up to, with one digit after the point. The counts are
/// doubles, so the caller adds and formats them.
pub fn render(data: &Json, scoped: bool, used: &str, total: &str) -> (r: String)
    ensures
        r@ == rendered(data.v(), scoped, used@, total@),
{
    let mut out = String::new();
    let none: Dict<Json> = Json::object();
    let groups = match data.fields_at("groups") {
        Some(d) => d,
        None => &none,
    };
    let ghost gv = data.v().field("groups"@).fields();
    proof {
        assert(groups.deep_view() == gv);
        assert(gv.dom() =~= groups@.dom());
        assert(out@ =~= Seq::<char>::empty());
    }
    if scoped {
        let mut s = "Resources: ".to_string();
        s.append(used);
        s.append("/");
        s.append(total);
        s.append(" GPU (");
        s.append(used);
        s.append(" reserved in placement groups)\n");
        out = s;
    }
    let mut s = "mentat daemon: ".to_string();
    s.append(text_at_or(data, "control_addr", "?").as_str());
    s.append(" (");
    s.append(text_at_or(data, "hostname", "?").as_str());
    s.append(")");
    if same_field(data, "head_node_id", "node_id") {
        s.append(" [head]");
    } else {
        s.append("");
    }
    s.append("\n");
    out.append(s.as_str());
    show_peers(data, &mut out);
    show_fabrics(data, &mut out);
    show_groups(groups, &mut out);
    out
}

/// A scoped rendering starts with the line of totals, and what follows it is the
/// unscoped one, in which the figures have no part.
pub proof fn law_the_totals_line_comes_first(
    data: JsonV,
    used: Seq<char>,
    total: Seq<char>,
    u: Seq<char>,
    t: Seq<char>,
)
    ensures
        rendered(data, true, used, total) == "Resources: "@ + used + "/"@ + total + " GPU ("@ + used
            + " reserved in placement groups)\n"@ + rendered(data, false, u, t),
{
    let line = totals_line(used, total);
    assert(rendered(data, true, used, total) =~= line + rendered(data, false, u, t));
}

} // verus!
