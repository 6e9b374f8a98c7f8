//! Which links a claim is given, told by the addresses that were probed.

use vstd::prelude::*;
use vstd::string::*;

use crate::daemon::claim::{
    all_bound, assignment, best_from_port, best_link, best_path, bind_of, bound, choices, closest,
    closest_from, complaint, completed, empty_set, first_of, has_set, lemma_completed,
    lemma_placing_order_names, link_of, links_between, picked, place_of, placing_order, reaches,
    solved, unknown_set, usable, BetweenV, Link, MemberV, PathV, PortV, RequestV, SetV, TopologyV,
};
use crate::daemon::claim_laws::{
    law_every_requirement_is_linked, law_sets_are_well_placed, lemma_all_bound,
    lemma_first_serving, members_match, well_placed,
};

verus! {

// ---------------------------------------------------------------------------
// Links
// ---------------------------------------------------------------------------
/// Whether two ports can be used for a link, and how long a probe between them took:
/// one of the two directions answered, and a fabric link has both ends tagged.
pub open spec fn answers(t: TopologyV, link: Link, x: PortV, y: PortV, rtt: u64) -> bool {
    &&& link == Link::Rdma ==> x.tags.contains("rdma"@) && y.tags.contains("rdma"@)
    &&& {
        ||| t.links.contains_pair((x.addr, y.addr), rtt)
        ||| !t.links.contains_key((x.addr, y.addr)) && t.links.contains_pair((y.addr, x.addr), rtt)
    }
}

/// Whether a path runs between two nodes over ports of theirs that answer.
pub open spec fn runs(t: TopologyV, a: Seq<char>, b: Seq<char>, link: Link, p: PathV) -> bool {
    &&& p.from == a
    &&& p.to == b
    &&& t.ports.contains_key(a) && t.ports[a].contains(p.local)
    &&& t.ports.contains_key(b) && t.ports[b].contains(p.remote)
    &&& answers(t, link, p.local, p.remote, p.rtt_ms)
}

proof fn lemma_usable(
    t: TopologyV,
    a: Seq<char>,
    b: Seq<char>,
    link: Link,
    x: PortV,
    y: PortV,
)
    ensures
        match usable(t, a, b, link, x, y) {
            Some(p) => {
                &&& p.from == a && p.to == b && p.local == x && p.remote == y
                &&& answers(t, link, x, y, p.rtt_ms)
                &&& forall|n: u64| answers(t, link, x, y, n) ==> n == p.rtt_ms
            },
            None => forall|n: u64| !answers(t, link, x, y, n),
        },
{
}

proof fn lemma_from_port(
    t: TopologyV,
    a: Seq<char>,
    b: Seq<char>,
    link: Link,
    x: PortV,
    ys: Seq<PortV>,
    best: Option<PathV>,
)
    ensures
        ({
            let r = best_from_port(t, a, b, link, x, ys, best);
            &&& best is Some ==> r is Some && r->0.rtt_ms <= best->0.rtt_ms
            &&& forall|j: int, n: u64|
                0 <= j < ys.len() && #[trigger] answers(t, link, x, ys[j], n) ==> r is Some
                    && r->0.rtt_ms <= n
            &&& r is Some ==> r == best || exists|j: int|
                0 <= j < ys.len() && r->0.from == a && r->0.to == b && r->0.local == x
                    && r->0.remote == #[trigger] ys[j] && answers(t, link, x, ys[j], r->0.rtt_ms)
        }),
    decreases ys.len(),
{
    if ys.len() > 0 {
        let init = ys.drop_last();
        let last = ys.last();
        assert(ys[ys.len() - 1] == last);
        lemma_from_port(t, a, b, link, x, init, best);
        lemma_usable(t, a, b, link, x, last);
        let had = best_from_port(t, a, b, link, x, init, best);
        let r = best_from_port(t, a, b, link, x, ys, best);
        assert forall|j: int, n: u64|
            0 <= j < ys.len() && #[trigger] answers(t, link, x, ys[j], n) implies r is Some
            && r->0.rtt_ms <= n by {
            if j < init.len() {
                assert(init[j] == ys[j]);
                assert(answers(t, link, x, init[j], n));
            }
        }
        if r is Some && r != best {
            if r == had && had is Some {
                let j = choose|j: int|
                    0 <= j < init.len() && r->0.from == a && r->0.to == b && r->0.local == x
                        && r->0.remote == #[trigger] init[j] && answers(
                        t,
                        link,
                        x,
                        init[j],
                        r->0.rtt_ms,
                    );
                assert(ys[j] == init[j]);
            }
        }
    }
}

proof fn lemma_link(
    t: TopologyV,
    a: Seq<char>,
    b: Seq<char>,
    link: Link,
    xs: Seq<PortV>,
    ys: Seq<PortV>,
)
    ensures
        ({
            let r = best_link(t, a, b, link, xs, ys);
            &&& forall|i: int, j: int, n: u64|
                0 <= i < xs.len() && 0 <= j < ys.len() && #[trigger] answers(
                    t,
                    link,
                    xs[i],
                    ys[j],
                    n,
                ) ==> r is Some && r->0.rtt_ms <= n
            &&& r is Some ==> {
                &&& r->0.from == a && r->0.to == b
                &&& xs.contains(r->0.local)
                &&& ys.contains(r->0.remote)
                &&& answers(t, link, r->0.local, r->0.remote, r->0.rtt_ms)
            }
        }),
    decreases xs.len(),
{
    if xs.len() > 0 {
        let init = xs.drop_last();
        lemma_link(t, a, b, link, init, ys);
        let had = best_link(t, a, b, link, init, ys);
        lemma_from_port(t, a, b, link, xs.last(), ys, had);
        let r = best_link(t, a, b, link, xs, ys);
        assert(xs[xs.len() - 1] == xs.last());
        assert forall|i: int, j: int, n: u64|
            0 <= i < xs.len() && 0 <= j < ys.len() && #[trigger] answers(
                t,
                link,
                xs[i],
                ys[j],
                n,
            ) implies r is Some && r->0.rtt_ms <= n by {
            if i < init.len() {
                assert(init[i] == xs[i]);
                assert(answers(t, link, init[i], ys[j], n));
            }
        }
        if r is Some {
            if r == had {
                let i = init.index_of(r->0.local);
                assert(xs[i] == r->0.local);
            } else {
                assert(xs.contains(xs.last()));
            }
        }
    }
}

/// Two nodes have a link exactly where a port of one and a port of the other answer,
/// tagged on both ends where a fabric is asked for; and the one that is used answered
/// no slower than any other.
pub proof fn law_the_fastest_link_is_used(
    t: TopologyV,
    a: Seq<char>,
    b: Seq<char>,
    link: Link,
)
    ensures
        match best_path(t, a, b, link) {
            Some(p) => {
                &&& runs(t, a, b, link, p)
                &&& forall|q: PathV| #[trigger] runs(t, a, b, link, q) ==> p.rtt_ms <= q.rtt_ms
            },
            None => forall|q: PathV| !#[trigger] runs(t, a, b, link, q),
        },
{
    if t.ports.contains_key(a) && t.ports.contains_key(b) {
        let (xs, ys) = (t.ports[a], t.ports[b]);
        lemma_link(t, a, b, link, xs, ys);
        assert forall|q: PathV| #[trigger] runs(t, a, b, link, q) implies best_path(
            t,
            a,
            b,
            link,
        ) is Some && best_path(t, a, b, link)->0.rtt_ms <= q.rtt_ms by {
            let i = xs.index_of(q.local);
            let j = ys.index_of(q.remote);
            assert(answers(t, link, xs[i], ys[j], q.rtt_ms));
        }
    }
}

proof fn lemma_closest_from(
    t: TopologyV,
    link: Link,
    a: Seq<char>,
    to: Seq<Seq<char>>,
    best: Option<PathV>,
)
    ensures
        ({
            let r = closest_from(t, link, a, to, best);
            &&& best is Some ==> r is Some && r->0.rtt_ms <= best->0.rtt_ms
            &&& forall|j: int, q: PathV|
                0 <= j < to.len() && #[trigger] runs(t, a, to[j], link, q) ==> r is Some
                    && r->0.rtt_ms <= q.rtt_ms
            &&& r is Some ==> r == best || exists|j: int|
                0 <= j < to.len() && runs(t, a, #[trigger] to[j], link, r->0)
        }),
    decreases to.len(),
{
    if to.len() > 0 {
        let init = to.drop_last();
        lemma_closest_from(t, link, a, init, best);
        law_the_fastest_link_is_used(t, a, to.last(), link);
        let r = closest_from(t, link, a, to, best);
        let had = closest_from(t, link, a, init, best);
        assert(to[to.len() - 1] == to.last());
        assert forall|j: int, q: PathV|
            0 <= j < to.len() && #[trigger] runs(t, a, to[j], link, q) implies r is Some
            && r->0.rtt_ms <= q.rtt_ms by {
            if j < init.len() {
                assert(init[j] == to[j]);
                assert(runs(t, a, init[j], link, q));
            }
        }
        if r is Some && r != best && r == had {
            let j = choose|j: int| 0 <= j < init.len() && runs(t, a, #[trigger] init[j], link, r->0);
            assert(to[j] == init[j]);
        }
    }
}

/// Of the links from some nodes to others, one that answered no slower than any is
/// taken; and there is one wherever any answers.
pub proof fn law_the_closest_pair_is_linked(
    t: TopologyV,
    link: Link,
    from: Seq<Seq<char>>,
    to: Seq<Seq<char>>,
)
    ensures
        match closest(t, link, from, to) {
            Some(p) => {
                &&& from.contains(p.from)
                &&& to.contains(p.to)
                &&& runs(t, p.from, p.to, link, p)
                &&& forall|a: Seq<char>, b: Seq<char>, q: PathV|
                    from.contains(a) && to.contains(b) && #[trigger] runs(t, a, b, link, q)
                        ==> p.rtt_ms <= q.rtt_ms
            },
            None => forall|a: Seq<char>, b: Seq<char>, q: PathV|
                from.contains(a) && to.contains(b) ==> !#[trigger] runs(t, a, b, link, q),
        },
    decreases from.len(),
{
    if from.len() > 0 {
        let init = from.drop_last();
        let last = from.last();
        law_the_closest_pair_is_linked(t, link, init, to);
        let had = closest(t, link, init, to);
        lemma_closest_from(t, link, last, to, had);
        let r = closest(t, link, from, to);
        assert(from[from.len() - 1] == last);
        assert forall|a: Seq<char>, b: Seq<char>, q: PathV|
            from.contains(a) && to.contains(b) && #[trigger] runs(t, a, b, link, q) implies r is Some
            && r->0.rtt_ms <= q.rtt_ms by {
            let i = from.index_of(a);
            let j = to.index_of(b);
            if i < init.len() {
                assert(init[i] == a);
                assert(init.contains(a));
            } else {
                assert(runs(t, last, to[j], link, q));
            }
        }
        if r is Some {
            if r == had {
                let i = init.index_of(r->0.from);
                assert(from[i] == r->0.from);
            } else {
                let j = choose|j: int|
                    0 <= j < to.len() && runs(t, last, #[trigger] to[j], link, r->0);
                assert(to.contains(to[j]));
            }
        }
    }
}

proof fn lemma_links_at(
    t: TopologyV,
    between: Seq<BetweenV>,
    chosen: Map<Seq<char>, Seq<Seq<char>>>,
)
    ensures
        match links_between(t, between, chosen) {
            Some(v) => v.len() == between.len() && forall|i: int|
                0 <= i < between.len() ==> ({
                    let b = #[trigger] between[i];
                    &&& chosen.contains_key(b.from)
                    &&& chosen.contains_key(b.to)
                    &&& closest(t, b.link, chosen[b.from], chosen[b.to]) == Some(v[i])
                }),
            None => exists|i: int|
                0 <= i < between.len() && {
                    let b = #[trigger] between[i];
                    ||| !chosen.contains_key(b.from)
                    ||| !chosen.contains_key(b.to)
                    ||| closest(t, b.link, chosen[b.from], chosen[b.to]) is None
                },
        },
    decreases between.len(),
{
    if between.len() > 0 {
        let init = between.drop_last();
        lemma_links_at(t, init, chosen);
        let b = between.last();
        assert(between[between.len() - 1] == b);
        match links_between(t, between, chosen) {
            Some(v) => {
                assert forall|i: int| 0 <= i < between.len() implies ({
                    let b = #[trigger] between[i];
                    &&& chosen.contains_key(b.from)
                    &&& chosen.contains_key(b.to)
                    &&& closest(t, b.link, chosen[b.from], chosen[b.to]) == Some(v[i])
                }) by {
                    if i < init.len() {
                        assert(init[i] == between[i]);
                    }
                }
            },
            None => {
                if links_between(t, init, chosen) is None {
                    let i = choose|i: int|
                        0 <= i < init.len() && {
                            let b = #[trigger] init[i];
                            ||| !chosen.contains_key(b.from)
                            ||| !chosen.contains_key(b.to)
                            ||| closest(t, b.link, chosen[b.from], chosen[b.to]) is None
                        };
                    assert(between[i] == init[i]);
                }
            },
        }
    }
}

/// The nodes that the members of a set stand on.
pub open spec fn nodes_of_set(t: TopologyV, req: RequestV, name: Seq<char>) -> Seq<Seq<char>> {
    let ms = (solved(t, req)->Ok_0).sets[name];
    Seq::new(ms.len(), |k: int| ms[k].node)
}

/// A claim that is granted links the sets it says to link, each by a link of the kind
/// asked for, from a member of the one to a member of the other, and by none slower than
/// another pair of members has.
pub proof fn law_sets_are_linked_as_asked(t: TopologyV, req: RequestV, i: int)
    requires
        solved(t, req) is Ok,
        0 <= i < req.between.len(),
    ensures
        ({
            let b = req.between[i];
            let p = (solved(t, req)->Ok_0).between[i];
            let (from, to) = (nodes_of_set(t, req, b.from), nodes_of_set(t, req, b.to));
            &&& (solved(t, req)->Ok_0).between.len() == req.between.len()
            &&& from.contains(p.from)
            &&& to.contains(p.to)
            &&& runs(t, p.from, p.to, b.link, p)
            &&& forall|x: Seq<char>, y: Seq<char>, q: PathV|
                from.contains(x) && to.contains(y) && #[trigger] runs(t, x, y, b.link, q)
                    ==> p.rtt_ms <= q.rtt_ms
        }),
{
    let m = assignment(t, req)->0;
    let b = req.between[i];
    law_every_requirement_is_linked(t, req);
    lemma_links_at(t, req.between, m);
    law_the_closest_pair_is_linked(t, b.link, m[b.from], m[b.to]);
    lemma_members_nodes(t, req, b.from);
    lemma_members_nodes(t, req, b.to);
}

proof fn lemma_members_nodes(t: TopologyV, req: RequestV, name: Seq<char>)
    requires
        solved(t, req) is Ok,
        assignment(t, req)->0.contains_key(name),
    ensures
        nodes_of_set(t, req, name) == assignment(t, req)->0[name],
{
    let m = assignment(t, req)->0;
    let order = placing_order(req.sets);
    lemma_completed(t, req.between, order, Map::empty(), Set::empty());
    assert(has_set(order, name));
    let k = choose|k: int| 0 <= k < order.len() && (#[trigger] order[k]).name == name;
    lemma_placing_order_names(req.sets);
    assert(order.contains(order[k]));
    assert(req.sets.contains(order[k]));
    let i = req.sets.index_of(order[k]);
    lemma_all_bound(t, req.sets, m, Map::empty());
    assert(members_match(t, req.sets[i], m[name], (solved(t, req)->Ok_0).sets[name]));
    assert(nodes_of_set(t, req, name) =~= m[name]);
}

/// Whether a port is on a fabric, and every other of some nodes has a fabric port that
/// answers it, or that it answers.
pub open spec fn on_the_fabric(
    t: TopologyV,
    p: PortV,
    node: Seq<char>,
    nodes: Seq<Seq<char>>,
) -> bool {
    &&& p.tags.contains("rdma"@)
    &&& forall|i: int|
        0 <= i < nodes.len() && #[trigger] nodes[i] != node ==> exists|y: PortV, n: u64|
            t.ports.contains_key(nodes[i]) && t.ports[nodes[i]].contains(y) && #[trigger] answers(
                t,
                Link::Rdma,
                p,
                y,
                n,
            )
}

/// Each member of a set binds an address of its own node: on a fabric that reaches every
/// other member where a fabric was asked for, and otherwise the node's first.
pub proof fn law_members_bind_addresses_of_their_nodes(t: TopologyV, req: RequestV, a: int, i: int)
    requires
        solved(t, req) is Ok,
        0 <= a < req.sets.len(),
        0 <= i < (solved(t, req)->Ok_0).sets[req.sets[a].name].len(),
    ensures
        ({
            let set = req.sets[a];
            let ms = (solved(t, req)->Ok_0).sets[set.name];
            let node = ms[i].node;
            &&& ms.len() == set.bundles.len()
            &&& t.ports.contains_key(node)
            &&& t.ports[node].contains(ms[i].bind)
            &&& set.link == Link::Rdma ==> on_the_fabric(
                t,
                ms[i].bind,
                node,
                nodes_of_set(t, req, set.name),
            )
            &&& set.link == Link::Any ==> ms[i].bind == t.ports[node][0]
            &&& t.free_gpus.contains_key(node) && t.free_gpus[node] >= set.bundles[i] || set.bundles[i]
                == 0
        }),
{
    law_sets_are_well_placed(t, req);
    let set = req.sets[a];
    let ms = (solved(t, req)->Ok_0).sets[set.name];
    let nodes = nodes_of_set(t, req, set.name);
    assert(nodes =~= Seq::new(ms.len(), |k: int| ms[k].node));
    assert(members_match(t, set, nodes, ms));
    assert(bind_of(t, set.link, ms[i].node, nodes) == Some(ms[i].bind));
    let ports = t.ports[ms[i].node];
    lemma_first_serving(t, ports, ms[i].node, nodes);
    if set.link == Link::Rdma {
        let p = ms[i].bind;
        assert forall|x: int| 0 <= x < nodes.len() && #[trigger] nodes[x] != ms[i].node implies exists|
            y: PortV,
            n: u64,
        |
            t.ports.contains_key(nodes[x]) && t.ports[nodes[x]].contains(y) && #[trigger] answers(
                t,
                Link::Rdma,
                p,
                y,
                n,
            ) by {
            let q = nodes[x];
            assert(reaches(t, p, q));
            let j = choose|j: int|
                0 <= j < t.ports[q].len() && (#[trigger] t.ports[q][j]).rdma() && t.rtt(
                    p.addr,
                    t.ports[q][j].addr,
                ) is Some;
            let y = t.ports[q][j];
            assert(answers(t, Link::Rdma, p, y, t.rtt(p.addr, y.addr)->0));
            assert(t.ports[q].contains(y));
        }
    } else {
        assert(t.ports[ms[i].node].contains(t.ports[ms[i].node][0]));
    }
    assert(well_placed(t, set, nodes));
    assert(t.free(nodes[i]) >= set.bundles[i]);
}

// ---------------------------------------------------------------------------
// What is refused, and what is granted
// ---------------------------------------------------------------------------
proof fn lemma_empty_set(sets: Seq<SetV>)
    ensures
        empty_set(sets) is Some <==> exists|i: int|
            0 <= i < sets.len() && (#[trigger] sets[i]).bundles.len() == 0,
    decreases sets.len(),
{
    if sets.len() > 0 {
        let tail = sets.drop_first();
        lemma_empty_set(tail);
        if empty_set(sets) is Some && sets[0].bundles.len() > 0 {
            let i = choose|i: int| 0 <= i < tail.len() && (#[trigger] tail[i]).bundles.len() == 0;
            assert(sets[i + 1] == tail[i]);
        }
        if exists|i: int| 0 <= i < sets.len() && (#[trigger] sets[i]).bundles.len() == 0 {
            let i = choose|i: int| 0 <= i < sets.len() && (#[trigger] sets[i]).bundles.len() == 0;
            if i > 0 {
                assert(tail[i - 1] == sets[i]);
            }
        }
    }
}

proof fn lemma_unknown_set(sets: Seq<SetV>, between: Seq<BetweenV>)
    ensures
        unknown_set(sets, between) is Some <==> exists|i: int|
            0 <= i < between.len() && (!has_set(sets, (#[trigger] between[i]).from) || !has_set(
                sets,
                between[i].to,
            )),
    decreases between.len(),
{
    if between.len() > 0 {
        let tail = between.drop_first();
        lemma_unknown_set(sets, tail);
        if unknown_set(sets, tail) is Some {
            let i = choose|i: int|
                0 <= i < tail.len() && (!has_set(sets, (#[trigger] tail[i]).from) || !has_set(
                    sets,
                    tail[i].to,
                ));
            assert(between[i + 1] == tail[i]);
        }
        if exists|i: int|
            0 <= i < between.len() && (!has_set(sets, (#[trigger] between[i]).from) || !has_set(
                sets,
                between[i].to,
            )) {
            let i = choose|i: int|
                0 <= i < between.len() && (!has_set(sets, (#[trigger] between[i]).from)
                    || !has_set(sets, between[i].to));
            if i > 0 {
                assert(tail[i - 1] == between[i]);
            }
        }
    }
}

/// A request that is granted asks for a node at least in each set, names no set twice,
/// and links only sets that it has.
pub proof fn law_a_granted_request_makes_sense(t: TopologyV, req: RequestV)
    requires
        solved(t, req) is Ok,
    ensures
        forall|i: int| 0 <= i < req.sets.len() ==> (#[trigger] req.sets[i]).bundles.len() > 0,
        forall|i: int, j: int|
            0 <= i < j < req.sets.len() ==> (#[trigger] req.sets[i]).name != (
            #[trigger] req.sets[j]).name,
        forall|i: int|
            0 <= i < req.between.len() ==> (exists|j: int|
                0 <= j < req.sets.len() && (#[trigger] req.sets[j]).name == (
                #[trigger] req.between[i]).from) && (exists|j: int|
                0 <= j < req.sets.len() && (#[trigger] req.sets[j]).name == req.between[i].to),
{
    lemma_empty_set(req.sets);
    lemma_unknown_set(req.sets, req.between);
    assert forall|i: int| 0 <= i < req.between.len() implies (exists|j: int|
        0 <= j < req.sets.len() && (#[trigger] req.sets[j]).name == (
        #[trigger] req.between[i]).from) && (exists|j: int|
        0 <= j < req.sets.len() && (#[trigger] req.sets[j]).name == req.between[i].to) by {
        assert(has_set(req.sets, req.between[i].from) && has_set(req.sets, req.between[i].to));
    }
}

proof fn lemma_picked_even(t: TopologyV, set: SetV, nodes: Seq<Seq<char>>, b: u64)
    requires
        b > 0,
        forall|i: int| 0 <= i < set.bundles.len() ==> #[trigger] set.bundles[i] == b,
    ensures
        ({
            let good = nodes.filter(
                |n: Seq<char>| t.free_gpus.contains_key(n) && t.free_gpus[n] >= b,
            );
            picked(t, set, Set::empty(), nodes) == (if good.len() <= set.bundles.len() {
                good
            } else {
                good.take(set.bundles.len() as int)
            })
        }),
    decreases nodes.len(),
{
    reveal(Seq::filter);
    let p = |n: Seq<char>| t.free_gpus.contains_key(n) && t.free_gpus[n] >= b;
    if nodes.len() > 0 {
        let init = nodes.drop_last();
        lemma_picked_even(t, set, init, b);
        let had = init.filter(p);
        let good = nodes.filter(p);
        let len = set.bundles.len();
        if p(nodes.last()) {
            assert(good == had.push(nodes.last()));
            if had.len() >= len {
                assert(good.take(len as int) =~= had.take(len as int));
                if had.len() == len {
                    assert(had.take(len as int) =~= had);
                }
            }
        }
    } else {
        let none = Seq::<Seq<char>>::empty();
        assert(nodes.filter(p) =~= none);
    }
}

/// A claim of one plain set, of bundles that all ask for the same number of GPUs, goes
/// to the first nodes that have as many free, one for each bundle; and it is refused
/// exactly where there are too few of them, or one of those has no address.
pub proof fn law_a_plain_set_takes_the_first_nodes_with_room(
    t: TopologyV,
    set: SetV,
    b: u64,
)
    requires
        b > 0,
        set.link == Link::Any,
        set.bundles.len() > 0,
        forall|i: int| 0 <= i < set.bundles.len() ==> #[trigger] set.bundles[i] == b,
    ensures
        ({
            let good = t.nodes.filter(
                |n: Seq<char>| t.free_gpus.contains_key(n) && t.free_gpus[n] >= b,
            );
            let req = RequestV { sets: seq![set], between: Seq::empty() };
            let first = good.take(set.bundles.len() as int);
            &&& good.len() < set.bundles.len() ==> solved(t, req) is Err
            &&& good.len() >= set.bundles.len() && (forall|i: int|
                0 <= i < first.len() ==> t.ports.contains_key(#[trigger] first[i])
                    && t.ports[first[i]].len() > 0) ==> solved(t, req) is Ok
            &&& solved(t, req) is Ok ==> nodes_of_set(t, req, set.name) == first
        }),
{
    let req = RequestV { sets: seq![set], between: Seq::<BetweenV>::empty() };
    let p = |n: Seq<char>| t.free_gpus.contains_key(n) && t.free_gpus[n] >= b;
    let good = t.nodes.filter(p);
    let len = set.bundles.len() as int;
    lemma_picked_even(t, set, t.nodes, b);
    let pick = picked(t, set, Set::empty(), t.nodes);
    lemma_empty_set(req.sets);
    lemma_unknown_set(req.sets, req.between);
    assert(complaint(req) is None);
    assert(seq![set].drop_last() =~= Seq::empty());
    let order = placing_order(req.sets);
    assert(Seq::<SetV>::empty().insert(0, set) =~= seq![set]);
    assert(order =~= seq![set]) by {
        reveal_with_fuel(placing_order, 2);
        reveal_with_fuel(place_of, 2);
    }
    assert(seq![set].drop_first() =~= Seq::empty());
    let none = Map::<Seq<char>, Seq<Seq<char>>>::empty();
    assert(links_between(t, req.between, none.insert(set.name, pick)) is Some);
    if good.len() >= len {
        if good.len() == len {
            assert(good.take(len) =~= good);
        }
        assert(pick == good.take(len));
        assert(choices(t, set, Set::empty()) == seq![pick]);
        assert(assignment(t, req) == Some(none.insert(set.name, pick))) by {
            reveal_with_fuel(completed, 3);
            reveal_with_fuel(first_of, 3);
        }
        let m = none.insert(set.name, pick);
        if forall|i: int|
            0 <= i < pick.len() ==> t.ports.contains_key(#[trigger] pick[i])
                && t.ports[pick[i]].len() > 0 {
            lemma_all_bind(t, set, pick, pick, Seq::empty());
            assert(all_bound(t, req.sets, m, Map::empty()) is Ok) by {
                reveal_with_fuel(all_bound, 3);
            }
        }
        if solved(t, req) is Ok {
            lemma_members_nodes(t, req, set.name);
        }
    } else {
        assert(choices(t, set, Set::empty()) =~= Seq::empty());
        assert(assignment(t, req) is None) by {
            reveal_with_fuel(completed, 3);
            reveal_with_fuel(first_of, 3);
        }
    }
}

proof fn lemma_all_bind(
    t: TopologyV,
    set: SetV,
    peers: Seq<Seq<char>>,
    nodes: Seq<Seq<char>>,
    had: Seq<MemberV>,
)
    requires
        set.link == Link::Any,
        forall|i: int|
            0 <= i < nodes.len() ==> t.ports.contains_key(#[trigger] nodes[i])
                && t.ports[nodes[i]].len() > 0,
    ensures
        bound(t, set, peers, nodes, had) is Ok,
    decreases nodes.len(),
{
    if nodes.len() > 0 {
        let tail = nodes.drop_first();
        assert forall|i: int| 0 <= i < tail.len() implies t.ports.contains_key(#[trigger] tail[i])
            && t.ports[tail[i]].len() > 0 by {
            assert(tail[i] == nodes[i + 1]);
        }
        assert(t.ports.contains_key(nodes[0]));
        let p = t.ports[nodes[0]][0];
        lemma_all_bind(
            t,
            set,
            peers,
            tail,
            had.push(MemberV { node: nodes[0], bind: p }),
        );
    }
}

/// The names of links: a fabric goes by three, and any link by three.
pub proof fn law_a_link_goes_by_its_names(s: Seq<char>)
    ensures
        link_of("rdma"@) == Some(Link::Rdma),
        link_of("roce"@) == Some(Link::Rdma),
        link_of("fabric"@) == Some(Link::Rdma),
        link_of("ip"@) == Some(Link::Any),
        link_of("any"@) == Some(Link::Any),
        link_of(""@) == Some(Link::Any),
        s != "rdma"@ && s != "roce"@ && s != "fabric"@ && s != "ip"@ && s != "any"@ && s != ""@
            ==> link_of(s) is None,
{
    reveal_strlit("rdma");
    reveal_strlit("roce");
    reveal_strlit("fabric");
    reveal_strlit("ip");
    reveal_strlit("any");
    reveal_strlit("");
    assert("rdma"@[0] == 'r' && "roce"@[1] == 'o' && "rdma"@[1] == 'd');
    assert("ip"@.len() == 2 && "any"@.len() == 3 && ""@.len() == 0 && "fabric"@.len() == 6);
}

} // verus!
