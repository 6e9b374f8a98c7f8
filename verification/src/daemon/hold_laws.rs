//! Who holds a claim, what it is granted, and what it is solved on.

use vstd::prelude::*;
use vstd::string::*;

use crate::common::dict::{lemma_finite_lists, ordered};
use crate::common::json::JsonV;
use crate::daemon::claim::{solved, Link, SetV};
use crate::daemon::claims::{
    bundle_list, claim_answer, gather, released, request_of, set_of, sets_of, nothing, ports_of,
    solution_doc, topology_of, with_agents, with_node, with_pairs, with_peers, with_probes,
    with_told_pairs, with_told_peers, with_told_probes, GatherV,
};
use crate::daemon::count_laws::{free_on, law_a_granted_claim_has_its_gpus};
use crate::daemon::link_laws::law_a_link_goes_by_its_names;
use crate::daemon::state::{PairV, PeerV, StateV};
use crate::daemon::status::LocalV;

verus! {

// ---------------------------------------------------------------------------
// Holding
// ---------------------------------------------------------------------------
/// Whether a group holds a claim of a name.
pub open spec fn claimed_as(s: StateV, group: Seq<char>, name: Seq<char>) -> bool {
    s.claims.contains_key(group) && s.claims[group].contains_key(name)
}

/// A claim is granted by the head alone. A new name takes the next generation and is
/// held by its client alone; a name that is held gains a holder, and keeps its view and
/// generation. A claim that is refused changes nothing, and none moves another.
pub proof fn law_a_claim_is_held_by_name(
    s: StateV,
    local: LocalV,
    client: Seq<char>,
    group: Seq<char>,
    name: Seq<char>,
    shape: JsonV,
)
    ensures
        ({
            let (t, r) = claim_answer(s, local, client, group, name, shape);
            let c = t.claims[group][name];
            let had = s.claims[group][name];
            &&& r is Err ==> t == s
            &&& s.head_node_id != s.node_id ==> r is Err
            &&& name.len() == 0 ==> r is Err
            &&& r is Ok ==> {
                &&& claimed_as(t, group, name)
                &&& c.holders.contains(client)
                &&& r->Ok_0 == (c.generation, c.view)
            }
            &&& r is Ok && claimed_as(s, group, name) ==> {
                &&& c.view == had.view
                &&& c.generation == had.generation
                &&& forall|h: Seq<char>| #[trigger]
                    c.holders.contains(h) <==> h == client || had.holders.contains(h)
                &&& t.claim_generation == s.claim_generation
            }
            &&& r is Ok && !claimed_as(s, group, name) ==> {
                &&& forall|h: Seq<char>| #[trigger] c.holders.contains(h) <==> h == client
                &&& s.claim_generation < u64::MAX ==> c.generation == s.claim_generation + 1
                &&& t.claim_generation == c.generation
            }
            &&& forall|g: Seq<char>, n: Seq<char>|
                (g != group || n != name) ==> (#[trigger] claimed_as(t, g, n) <==> claimed_as(
                    s,
                    g,
                    n,
                ))
            &&& forall|g: Seq<char>, n: Seq<char>|
                (g != group || n != name) && #[trigger] claimed_as(s, g, n) ==> t.claims[g][n]
                    == s.claims[g][n]
            &&& t.agents == s.agents && t.actors == s.actors && t.pgs == s.pgs
        }),
{
}

/// A claim that is held for one shape is refused to another: one that asks for other
/// sets, other bundles, other links, or cannot be read.
pub proof fn law_a_held_claim_keeps_its_shape(
    s: StateV,
    local: LocalV,
    client: Seq<char>,
    group: Seq<char>,
    name: Seq<char>,
    shape: JsonV,
)
    requires
        claimed_as(s, group, name),
        claim_answer(s, local, client, group, name, shape).1 is Ok,
    ensures
        request_of(shape) is Ok,
        request_of(shape)->Ok_0.sets == s.claims[group][name].shape.sets,
        request_of(shape)->Ok_0.between == s.claims[group][name].shape.between,
{
}

/// Letting go of a claim takes one holder off it, and leaves the rest of it as it is.
/// The claim goes exactly with its last holder, and no other claim is touched.
pub proof fn law_a_claim_goes_with_its_last_holder(
    s: StateV,
    client: Seq<char>,
    group: Seq<char>,
    name: Seq<char>,
)
    ensures
        ({
            let t = released(s, client, group, name);
            let c = t.claims[group][name];
            let had = s.claims[group][name];
            &&& claimed_as(t, group, name) <==> claimed_as(s, group, name) && exists|h: Seq<char>|
                h != client && #[trigger] had.holders.contains(h)
            &&& claimed_as(t, group, name) ==> {
                &&& c.view == had.view
                &&& c.generation == had.generation
                &&& c.shape == had.shape
                &&& forall|h: Seq<char>| #[trigger]
                    c.holders.contains(h) <==> h != client && had.holders.contains(h)
            }
            &&& forall|g: Seq<char>, n: Seq<char>|
                (g != group || n != name) ==> (#[trigger] claimed_as(t, g, n) <==> claimed_as(
                    s,
                    g,
                    n,
                ))
            &&& forall|g: Seq<char>, n: Seq<char>|
                (g != group || n != name) && #[trigger] claimed_as(s, g, n) ==> t.claims[g][n]
                    == s.claims[g][n]
            &&& t.agents == s.agents && t.actors == s.actors && t.pgs == s.pgs
        }),
{
    let t = released(s, client, group, name);
    if claimed_as(s, group, name) {
        let had = s.claims[group][name];
        let left = had.holders.remove(client);
        if exists|h: Seq<char>| h != client && #[trigger] had.holders.contains(h) {
            let h = choose|h: Seq<char>| h != client && #[trigger] had.holders.contains(h);
            assert(left.contains(h));
        }
    }
}

proof fn lemma_view_names()
    ensures
        "sets"@ != "between"@,
        "node"@ != "host"@,
        "node"@ != "bind"@,
        "node"@ != "iface"@,
        "node"@ != "tags"@,
{
    reveal_strlit("sets");
    reveal_strlit("between");
    reveal_strlit("node");
    reveal_strlit("host");
    reveal_strlit("bind");
    reveal_strlit("iface");
    reveal_strlit("tags");
    assert("sets"@.len() == 4 && "between"@.len() == 7 && "iface"@.len() == 5);
    assert("node"@[0] == 'n' && "host"@[0] == 'h' && "bind"@[0] == 'b' && "tags"@[0] == 't');
}

/// A claim that is granted anew is read from its shape, and what its client is shown
/// lists, under each set's name, one member for each bundle, on a node with as many GPUs
/// of live agents that nothing has taken.
pub proof fn law_a_new_claim_shows_nodes_with_room(
    s: StateV,
    local: LocalV,
    client: Seq<char>,
    group: Seq<char>,
    name: Seq<char>,
    shape: JsonV,
    i: int,
    j: int,
)
    requires
        s.agents.dom().finite(),
        !claimed_as(s, group, name),
        claim_answer(s, local, client, group, name, shape).1 is Ok,
        0 <= i < request_of(shape)->Ok_0.sets.len(),
        0 <= j < request_of(shape)->Ok_0.sets[i].bundles.len(),
    ensures
        ({
            let view = (claim_answer(s, local, client, group, name, shape).1->Ok_0).1;
            let set = request_of(shape)->Ok_0.sets[i];
            let members = view.field("sets"@).field(set.name).items();
            let node = members[j].field("node"@).text();
            &&& request_of(shape) is Ok
            &&& members.len() == set.bundles.len()
            &&& node is Some
            &&& free_on(s, node->0).finite()
            &&& free_on(s, node->0).len() >= set.bundles[j]
        }),
{
    let req = request_of(shape)->Ok_0;
    law_a_granted_claim_has_its_gpus(s, local, req, i, j);
    lemma_view_names();
    let sol = solved(topology_of(s, local), req)->Ok_0;
    let view = (claim_answer(s, local, client, group, name, shape).1->Ok_0).1;
    assert(view == solution_doc(sol, gather(s, local).hosts));
    let sets = view.field("sets"@);
    assert(sets.has(req.sets[i].name));
}

// ---------------------------------------------------------------------------
// Reading a shape
// ---------------------------------------------------------------------------
proof fn lemma_sets_of(items: Seq<JsonV>, had: Seq<SetV>)
    ensures
        match sets_of(items, had) {
            Ok(v) => {
                &&& v.len() == had.len() + items.len()
                &&& forall|i: int| 0 <= i < had.len() ==> #[trigger] v[i] == had[i]
                &&& forall|i: int|
                    0 <= i < items.len() ==> set_of(#[trigger] items[i]) == Ok::<
                        SetV,
                        Seq<char>,
                    >(v[had.len() + i])
            },
            Err(_) => exists|i: int| 0 <= i < items.len() && set_of(#[trigger] items[i]) is Err,
        },
    decreases items.len(),
{
    if items.len() > 0 {
        match set_of(items[0]) {
            Ok(x) => {
                let tail = items.drop_first();
                let more = had.push(x);
                lemma_sets_of(tail, more);
                match sets_of(items, had) {
                    Ok(v) => {
                        assert forall|i: int| 0 <= i < had.len() implies #[trigger] v[i]
                            == had[i] by {
                            assert(more[i] == had[i]);
                        }
                        assert forall|i: int| 0 <= i < items.len() implies set_of(
                            #[trigger] items[i],
                        ) == Ok::<SetV, Seq<char>>(v[had.len() + i]) by {
                            if i > 0 {
                                assert(tail[i - 1] == items[i]);
                            } else {
                                assert(v[had.len() as int] == more[had.len() as int]);
                            }
                        }
                    },
                    Err(_) => {
                        let i = choose|i: int|
                            0 <= i < tail.len() && set_of(#[trigger] tail[i]) is Err;
                        assert(items[i + 1] == tail[i]);
                    },
                }
            },
            Err(_) => {},
        }
    }
}

proof fn lemma_bundle_list(items: Seq<JsonV>)
    requires
        forall|i: int| 0 <= i < items.len() ==> (#[trigger] items[i]) is Uint,
    ensures
        bundle_list(items) == Seq::new(items.len(), |i: int| items[i]->Uint_0),
    decreases items.len(),
{
    if items.len() > 0 {
        let init = items.drop_last();
        assert forall|i: int| 0 <= i < init.len() implies (#[trigger] init[i]) is Uint by {
            assert(init[i] == items[i]);
        }
        lemma_bundle_list(init);
        assert(items[items.len() - 1] == items.last());
    }
    assert(bundle_list(items) =~= Seq::new(items.len(), |i: int| items[i]->Uint_0));
}

/// A shape that is read has one set for each that it lists, under its name: with the
/// bundles listed, or as many of one GPU as a number says; over any link where it names
/// none.
pub proof fn law_a_shape_says_its_sets(shape: JsonV, i: int)
    requires
        request_of(shape) is Ok,
        0 <= i < shape.field("sets"@).items().len(),
    ensures
        ({
            let items = shape.field("sets"@).items();
            let item = items[i];
            let set = request_of(shape)->Ok_0.sets[i];
            let bundles = item.field("bundles"@);
            &&& shape.field("sets"@) is Arr
            &&& request_of(shape)->Ok_0.sets.len() == items.len()
            &&& item.field("name"@) == JsonV::Str(set.name)
            &&& bundles is Uint ==> {
                &&& set.bundles.len() == bundles->Uint_0
                &&& forall|j: int| 0 <= j < set.bundles.len() ==> #[trigger] set.bundles[j] == 1
            }
            &&& bundles is Arr && (forall|j: int|
                0 <= j < bundles->Arr_0.len() ==> (#[trigger] bundles->Arr_0[j]) is Uint)
                ==> set.bundles == Seq::new(
                bundles->Arr_0.len(),
                |j: int| bundles->Arr_0[j]->Uint_0,
            )
            &&& item.field("link"@) is Null ==> set.link == Link::Any
            &&& item.field("link"@) == JsonV::Str("rdma"@) ==> set.link == Link::Rdma
            &&& item.field("link"@) == JsonV::Str("ip"@) ==> set.link == Link::Any
        }),
{
    let items = shape.field("sets"@).items();
    lemma_sets_of(items, Seq::empty());
    let set = request_of(shape)->Ok_0.sets[i];
    assert(set_of(items[i]) == Ok::<SetV, Seq<char>>(set));
    let bundles = items[i].field("bundles"@);
    if bundles is Arr {
        let v = bundles->Arr_0;
        if forall|j: int| 0 <= j < v.len() ==> (#[trigger] v[j]) is Uint {
            lemma_bundle_list(v);
        }
    }
    law_a_link_goes_by_its_names(Seq::empty());
}

// ---------------------------------------------------------------------------
// What was probed
// ---------------------------------------------------------------------------
/// Whether a daemon's own probe of a peer answered between two addresses, in this time.
pub open spec fn probed(p: PeerV, near: Seq<char>, far: Seq<char>, rtt: u64) -> bool {
    &&& p.probe_pairs.contains_key(near)
    &&& p.probe_pairs[near].contains_key(far)
    &&& p.probe_pairs[near][far].ok
    &&& p.probe_pairs[near][far].rtt_ms == rtt
}

/// Whether a peer told of a probe of one of its live peers that answered, in this time.
pub open spec fn told(p: PeerV, q: Seq<char>, near: Seq<char>, far: Seq<char>, rtt: u64) -> bool {
    let peer = p.last_status.field("peers"@).field(q);
    let cell = peer.field("probes"@).field(near).field(far);
    &&& p.last_status.field("peers"@).has(q)
    &&& peer.field("alive"@) == JsonV::Bool(true)
    &&& peer.field("probes"@).has(near)
    &&& peer.field("probes"@).field(near).has(far)
    &&& cell.field("ok"@) == JsonV::Bool(true)
    &&& cell.field("rtt_ms"@) is Uint ==> cell.field("rtt_ms"@)->Uint_0 == rtt
}

/// Whether anybody who is alive says that two addresses reach each other.
pub open spec fn attested(s: StateV, near: Seq<char>, far: Seq<char>, rtt: u64) -> bool {
    exists|k: Seq<char>| #[trigger]
        s.peers.contains_key(k) && s.peers[k].alive && (probed(s.peers[k], near, far, rtt)
            || exists|q: Seq<char>| told(s.peers[k], q, near, far, rtt))
}

/// Whether each link of a map was there before or is backed by a condition.
spec fn backed(
    links: Map<(Seq<char>, Seq<char>), u64>,
    had: Map<(Seq<char>, Seq<char>), u64>,
    ok: spec_fn(Seq<char>, Seq<char>, u64) -> bool,
) -> bool {
    &&& forall|a: Seq<char>, b: Seq<char>| #[trigger]
        links.contains_key((a, b)) ==> had.contains_pair((a, b), links[(a, b)]) || ok(
            a,
            b,
            links[(a, b)],
        )
    &&& forall|a: Seq<char>, b: Seq<char>| #[trigger]
        had.contains_key((a, b)) ==> links.contains_key((a, b))
}

proof fn lemma_pairs(
    links: Map<(Seq<char>, Seq<char>), u64>,
    near: Seq<char>,
    m: Map<Seq<char>, PairV>,
    keys: Seq<Seq<char>>,
)
    requires
        forall|i: int| 0 <= i < keys.len() ==> m.contains_key(#[trigger] keys[i]),
    ensures
        backed(
            with_pairs(links, near, m, keys),
            links,
            |a: Seq<char>, b: Seq<char>, n: u64|
                a == near && m.contains_key(b) && m[b].ok && m[b].rtt_ms == n,
        ),
        forall|i: int|
            0 <= i < keys.len() && m[#[trigger] keys[i]].ok ==> with_pairs(
                links,
                near,
                m,
                keys,
            ).contains_key((near, keys[i])),
    decreases keys.len(),
{
    if keys.len() > 0 {
        let init = keys.drop_last();
        assert(keys[keys.len() - 1] == keys.last());
        assert forall|i: int| 0 <= i < init.len() implies m.contains_key(#[trigger] init[i]) by {
            assert(init[i] == keys[i]);
        }
        lemma_pairs(links, near, m, init);
        assert forall|i: int| 0 <= i < keys.len() && m[#[trigger] keys[i]].ok implies with_pairs(
            links,
            near,
            m,
            keys,
        ).contains_key((near, keys[i])) by {
            if i < init.len() {
                assert(init[i] == keys[i]);
            }
        }
    }
}

proof fn lemma_keys_of<V>(m: Map<Seq<char>, V>)
    requires
        m.dom().finite(),
    ensures
        forall|i: int|
            0 <= i < ordered(m.dom()).len() ==> m.contains_key(#[trigger] ordered(m.dom())[i]),
        forall|k: Seq<char>| #[trigger]
            m.contains_key(k) ==> exists|i: int|
                0 <= i < ordered(m.dom()).len() && ordered(m.dom())[i] == k,
{
    lemma_finite_lists(m.dom());
    let keys = ordered(m.dom());
    assert forall|i: int| 0 <= i < keys.len() implies m.contains_key(#[trigger] keys[i]) by {
        assert(keys.contains(keys[i]));
        assert(m.dom().contains(keys[i]));
    }
    assert forall|k: Seq<char>| #[trigger] m.contains_key(k) implies exists|i: int|
        0 <= i < keys.len() && keys[i] == k by {
        assert(m.dom().contains(k));
        assert(keys.contains(k));
    }
}

proof fn lemma_probes(
    links: Map<(Seq<char>, Seq<char>), u64>,
    m: Map<Seq<char>, Map<Seq<char>, PairV>>,
    keys: Seq<Seq<char>>,
)
    requires
        forall|i: int|
            0 <= i < keys.len() ==> m.contains_key(#[trigger] keys[i]) && m[keys[i]].dom().finite(),
    ensures
        backed(
            with_probes(links, m, keys),
            links,
            |a: Seq<char>, b: Seq<char>, n: u64|
                m.contains_key(a) && m[a].contains_key(b) && m[a][b].ok && m[a][b].rtt_ms == n,
        ),
        forall|i: int, b: Seq<char>|
            #![trigger m[keys[i]].contains_key(b)]
            0 <= i < keys.len() && m[keys[i]].contains_key(b) && m[keys[i]][b].ok ==> with_probes(
                links,
                m,
                keys,
            ).contains_key((keys[i], b)),
    decreases keys.len(),
{
    if keys.len() > 0 {
        let init = keys.drop_last();
        let near = keys.last();
        assert(keys[keys.len() - 1] == near);
        assert forall|i: int| 0 <= i < init.len() implies m.contains_key(#[trigger] init[i])
            && m[init[i]].dom().finite() by {
            assert(init[i] == keys[i]);
        }
        lemma_probes(links, m, init);
        let had = with_probes(links, m, init);
        lemma_keys_of(m[near]);
        lemma_pairs(had, near, m[near], ordered(m[near].dom()));
        assert forall|i: int, b: Seq<char>|
            #![trigger m[keys[i]].contains_key(b)]
            0 <= i < keys.len() && m[keys[i]].contains_key(b) && m[keys[i]][b].ok implies with_probes(
            links,
            m,
            keys,
        ).contains_key((keys[i], b)) by {
            if i < init.len() {
                assert(init[i] == keys[i]);
                assert(m[init[i]].contains_key(b));
                assert(had.contains_key((keys[i], b)));
            }
        }
    }
}

/// What one daemon probed is what a claim may use: each pair of addresses that answered
/// is a link, with the time it took, and one that did not is none.
pub proof fn law_links_are_the_probes_that_answered(
    links: Map<(Seq<char>, Seq<char>), u64>,
    m: Map<Seq<char>, Map<Seq<char>, PairV>>,
    near: Seq<char>,
    far: Seq<char>,
)
    requires
        m.dom().finite(),
        forall|k: Seq<char>| m.contains_key(k) ==> (#[trigger] m[k]).dom().finite(),
        !links.contains_key((near, far)),
    ensures
        ({
            let r = with_probes(links, m, ordered(m.dom()));
            let yes = m.contains_key(near) && m[near].contains_key(far) && m[near][far].ok;
            &&& r.contains_key((near, far)) <==> yes
            &&& yes ==> r[(near, far)] == m[near][far].rtt_ms
        }),
{
    lemma_keys_of(m);
    let keys = ordered(m.dom());
    assert forall|i: int| 0 <= i < keys.len() implies m.contains_key(#[trigger] keys[i])
        && m[keys[i]].dom().finite() by {
    }
    lemma_probes(links, m, keys);
    if m.contains_key(near) {
        let i = choose|i: int| 0 <= i < keys.len() && keys[i] == near;
        if m[near].contains_key(far) {
            assert(m[keys[i]].contains_key(far));
        }
    }
}

proof fn lemma_told_pairs(
    links: Map<(Seq<char>, Seq<char>), u64>,
    near: Seq<char>,
    m: Map<Seq<char>, JsonV>,
    keys: Seq<Seq<char>>,
)
    requires
        forall|i: int| 0 <= i < keys.len() ==> m.contains_key(#[trigger] keys[i]),
    ensures
        backed(
            with_told_pairs(links, near, m, keys),
            links,
            |a: Seq<char>, b: Seq<char>, n: u64|
                a == near && m.contains_key(b) && answered(m[b], n),
        ),
        forall|i: int|
            0 <= i < keys.len() && m[#[trigger] keys[i]].field("ok"@) == JsonV::Bool(true)
                ==> with_told_pairs(links, near, m, keys).contains_key((near, keys[i])),
    decreases keys.len(),
{
    if keys.len() > 0 {
        let init = keys.drop_last();
        assert(keys[keys.len() - 1] == keys.last());
        assert forall|i: int| 0 <= i < init.len() implies m.contains_key(#[trigger] init[i]) by {
            assert(init[i] == keys[i]);
        }
        lemma_told_pairs(links, near, m, init);
        assert forall|i: int|
            0 <= i < keys.len() && m[#[trigger] keys[i]].field("ok"@) == JsonV::Bool(
                true,
            ) implies with_told_pairs(links, near, m, keys).contains_key((near, keys[i])) by {
            if i < init.len() {
                assert(init[i] == keys[i]);
            }
        }
    }
}

/// Whether a cell of a snapshot's probes answered, in this time where it tells one.
pub open spec fn answered(cell: JsonV, rtt: u64) -> bool {
    &&& cell.field("ok"@) == JsonV::Bool(true)
    &&& cell.field("rtt_ms"@) is Uint ==> cell.field("rtt_ms"@)->Uint_0 == rtt
}

/// Whether a table of probes says that two addresses reach each other.
spec fn table_says(m: Map<Seq<char>, JsonV>, near: Seq<char>, far: Seq<char>, rtt: u64) -> bool {
    m.contains_key(near) && m[near].fields().contains_key(far) && answered(
        m[near].fields()[far],
        rtt,
    )
}

proof fn lemma_told_probes(
    links: Map<(Seq<char>, Seq<char>), u64>,
    m: Map<Seq<char>, JsonV>,
    keys: Seq<Seq<char>>,
)
    requires
        forall|i: int|
            0 <= i < keys.len() ==> m.contains_key(#[trigger] keys[i])
                && m[keys[i]].fields().dom().finite(),
    ensures
        backed(
            with_told_probes(links, m, keys),
            links,
            |a: Seq<char>, b: Seq<char>, n: u64| table_says(m, a, b, n),
        ),
        forall|i: int, b: Seq<char>|
            #![trigger m[keys[i]].fields().contains_key(b)]
            0 <= i < keys.len() && m[keys[i]].fields().contains_key(b)
                && m[keys[i]].fields()[b].field("ok"@) == JsonV::Bool(true) ==> with_told_probes(
                links,
                m,
                keys,
            ).contains_key((keys[i], b)),
    decreases keys.len(),
{
    if keys.len() > 0 {
        let init = keys.drop_last();
        let near = keys.last();
        assert(keys[keys.len() - 1] == near);
        assert forall|i: int| 0 <= i < init.len() implies m.contains_key(#[trigger] init[i])
            && m[init[i]].fields().dom().finite() by {
            assert(init[i] == keys[i]);
        }
        lemma_told_probes(links, m, init);
        let had = with_told_probes(links, m, init);
        let row = m[near].fields();
        lemma_keys_of(row);
        lemma_told_pairs(had, near, row, ordered(row.dom()));
        assert forall|i: int, b: Seq<char>|
            #![trigger m[keys[i]].fields().contains_key(b)]
            0 <= i < keys.len() && m[keys[i]].fields().contains_key(b)
                && m[keys[i]].fields()[b].field("ok"@) == JsonV::Bool(
                true,
            ) implies with_told_probes(links, m, keys).contains_key((keys[i], b)) by {
            if i < init.len() {
                assert(init[i] == keys[i]);
                assert(m[init[i]].fields().contains_key(b));
                assert(had.contains_key((keys[i], b)));
            } else {
                let j = choose|j: int|
                    0 <= j < ordered(row.dom()).len() && ordered(row.dom())[j] == b;
                assert(row[ordered(row.dom())[j]].field("ok"@) == JsonV::Bool(true));
            }
        }
    }
}

/// Whether a snapshot's tables of probes are finite, as every document's are.
pub open spec fn tables_finite(status: JsonV) -> bool {
    let peers = status.field("peers"@).fields();
    &&& peers.dom().finite()
    &&& forall|q: Seq<char>| #[trigger]
        peers.contains_key(q) ==> peers[q].field("probes"@).fields().dom().finite()
    &&& forall|q: Seq<char>, near: Seq<char>|
        #![trigger peers[q].field("probes"@).fields().contains_key(near)]
        peers.contains_key(q) && peers[q].field("probes"@).fields().contains_key(near)
            ==> peers[q].field("probes"@).fields()[near].fields().dom().finite()
}

proof fn lemma_told_peers(
    links: Map<(Seq<char>, Seq<char>), u64>,
    p: PeerV,
    keys: Seq<Seq<char>>,
)
    requires
        tables_finite(p.last_status),
        forall|i: int|
            0 <= i < keys.len() ==> p.last_status.field("peers"@).fields().contains_key(
                #[trigger] keys[i],
            ),
    ensures
        ({
            let m = p.last_status.field("peers"@).fields();
            let r = with_told_peers(links, m, keys);
            &&& backed(
                r,
                links,
                |a: Seq<char>, b: Seq<char>, n: u64| exists|q: Seq<char>| told(p, q, a, b, n),
            )
            &&& forall|i: int, a: Seq<char>, b: Seq<char>, n: u64|
                0 <= i < keys.len() && #[trigger] told(p, keys[i], a, b, n) ==> r.contains_key(
                    (a, b),
                )
        }),
    decreases keys.len(),
{
    let m = p.last_status.field("peers"@).fields();
    let r = with_told_peers(links, m, keys);
    if keys.len() > 0 {
        let init = keys.drop_last();
        let q = keys.last();
        assert(keys[keys.len() - 1] == q);
        assert forall|i: int| 0 <= i < init.len() implies m.contains_key(#[trigger] init[i]) by {
            assert(init[i] == keys[i]);
        }
        lemma_told_peers(links, p, init);
        let had = with_told_peers(links, m, init);
        let probes = m[q].field("probes"@).fields();
        assert(m.contains_key(q));
        lemma_keys_of(probes);
        let near = ordered(probes.dom());
        assert forall|i: int| 0 <= i < near.len() implies probes.contains_key(#[trigger] near[i])
            && probes[near[i]].fields().dom().finite() by {
            assert(m[q].field("probes"@).fields().contains_key(near[i]));
        }
        lemma_told_probes(had, probes, near);
        assert forall|a: Seq<char>, b: Seq<char>| #[trigger] r.contains_key((a, b)) implies {
            ||| links.contains_pair((a, b), r[(a, b)])
            ||| exists|q: Seq<char>| told(p, q, a, b, r[(a, b)])
        } by {
            if m[q].field("alive"@) == JsonV::Bool(true) && table_says(
                probes,
                a,
                b,
                r[(a, b)],
            ) {
                assert(told(p, q, a, b, r[(a, b)]));
            } else {
                assert(had.contains_key((a, b)));
            }
        }
        assert forall|i: int, a: Seq<char>, b: Seq<char>, n: u64|
            0 <= i < keys.len() && #[trigger] told(p, keys[i], a, b, n) implies r.contains_key(
            (a, b),
        ) by {
            if i < init.len() {
                assert(init[i] == keys[i]);
                assert(told(p, init[i], a, b, n));
                assert(had.contains_key((a, b)));
            } else {
                assert(probes.contains_key(a));
                let j = choose|j: int| 0 <= j < near.len() && near[j] == a;
                assert(probes[near[j]].fields().contains_key(b));
            }
        }
    }
}

proof fn lemma_peers_linked(g: GatherV, s: StateV, keys: Seq<Seq<char>>)
    requires
        g.links == Map::<(Seq<char>, Seq<char>), u64>::empty(),
        forall|i: int| 0 <= i < keys.len() ==> s.peers.contains_key(#[trigger] keys[i]),
        forall|k: Seq<char>| #[trigger]
            s.peers.contains_key(k) ==> {
                &&& tables_finite(s.peers[k].last_status)
                &&& s.peers[k].probe_pairs.dom().finite()
                &&& forall|n: Seq<char>|
                    s.peers[k].probe_pairs.contains_key(n) ==> (
                    #[trigger] s.peers[k].probe_pairs[n]).dom().finite()
            },
    ensures
        ({
            let r = with_peers(g, s.peers, keys).links;
            &&& forall|a: Seq<char>, b: Seq<char>| #[trigger]
                r.contains_key((a, b)) ==> attested(s, a, b, r[(a, b)])
            &&& forall|i: int, a: Seq<char>, b: Seq<char>, n: u64|
                #![trigger probed(s.peers[keys[i]], a, b, n)]
                0 <= i < keys.len() && s.peers[keys[i]].alive && probed(
                    s.peers[keys[i]],
                    a,
                    b,
                    n,
                ) ==> r.contains_key((a, b))
            &&& forall|i: int, q: Seq<char>, a: Seq<char>, b: Seq<char>, n: u64|
                #![trigger told(s.peers[keys[i]], q, a, b, n)]
                0 <= i < keys.len() && s.peers[keys[i]].alive && told(
                    s.peers[keys[i]],
                    q,
                    a,
                    b,
                    n,
                ) ==> r.contains_key((a, b))
        }),
    decreases keys.len(),
{
    let r = with_peers(g, s.peers, keys).links;
    if keys.len() > 0 {
        let init = keys.drop_last();
        let k = keys.last();
        assert(keys[keys.len() - 1] == k);
        assert forall|i: int| 0 <= i < init.len() implies s.peers.contains_key(
            #[trigger] init[i],
        ) by {
            assert(init[i] == keys[i]);
        }
        lemma_peers_linked(g, s, init);
        let had = with_peers(g, s.peers, init).links;
        let p = s.peers[k];
        assert(s.peers.contains_key(k));
        let m = p.probe_pairs;
        lemma_keys_of(m);
        let near = ordered(m.dom());
        assert forall|i: int| 0 <= i < near.len() implies m.contains_key(#[trigger] near[i])
            && m[near[i]].dom().finite() by {
        }
        lemma_probes(had, m, near);
        let mid = with_probes(had, m, near);
        let peers = p.last_status.field("peers"@).fields();
        lemma_keys_of(peers);
        let names = ordered(peers.dom());
        lemma_told_peers(mid, p, names);
        assert forall|a: Seq<char>, b: Seq<char>| #[trigger] r.contains_key((a, b)) implies attested(
            s,
            a,
            b,
            r[(a, b)],
        ) by {
            if p.alive {
                let n = r[(a, b)];
                if exists|q: Seq<char>| told(p, q, a, b, n) {
                    assert(s.peers.contains_key(k) && s.peers[k].alive);
                } else {
                    assert(mid.contains_pair((a, b), n));
                    if !had.contains_pair((a, b), n) {
                        assert(probed(p, a, b, n));
                        assert(s.peers.contains_key(k) && s.peers[k].alive);
                    }
                }
            }
        }
        assert forall|i: int, a: Seq<char>, b: Seq<char>, n: u64|
            #![trigger probed(s.peers[keys[i]], a, b, n)]
            0 <= i < keys.len() && s.peers[keys[i]].alive && probed(
                s.peers[keys[i]],
                a,
                b,
                n,
            ) implies r.contains_key((a, b)) by {
            if i < init.len() {
                assert(init[i] == keys[i]);
                assert(probed(s.peers[init[i]], a, b, n));
                assert(had.contains_key((a, b)));
                if p.alive {
                    assert(mid.contains_key((a, b)));
                }
            } else {
                let j = choose|j: int| 0 <= j < near.len() && near[j] == a;
                assert(m[near[j]].contains_key(b));
                assert(mid.contains_key((a, b)));
            }
        }
        assert forall|i: int, q: Seq<char>, a: Seq<char>, b: Seq<char>, n: u64|
            #![trigger told(s.peers[keys[i]], q, a, b, n)]
            0 <= i < keys.len() && s.peers[keys[i]].alive && told(
                s.peers[keys[i]],
                q,
                a,
                b,
                n,
            ) implies r.contains_key((a, b)) by {
            if i < init.len() {
                assert(init[i] == keys[i]);
                assert(told(s.peers[init[i]], q, a, b, n));
                assert(had.contains_key((a, b)));
                if p.alive {
                    assert(mid.contains_key((a, b)));
                }
            } else {
                assert(peers.contains_key(q));
                let j = choose|j: int| 0 <= j < names.len() && names[j] == q;
                assert(told(p, names[j], a, b, n));
            }
        }
    }
}

proof fn lemma_agents_link_nothing(g: GatherV, s: StateV, keys: Seq<Seq<char>>)
    ensures
        with_agents(g, s, keys).links == g.links,
    decreases keys.len(),
{
    if keys.len() > 0 {
        lemma_agents_link_nothing(g, s, keys.drop_last());
    }
}

/// A claim is solved on the links that someone who is alive attests: this daemon's own
/// probes of live peers that answered, and those that live peers tell of their own live
/// peers. Each has a time that one of those took, and no other pair is linked.
pub proof fn law_a_claim_is_solved_on_attested_links(
    s: StateV,
    local: LocalV,
    near: Seq<char>,
    far: Seq<char>,
)
    requires
        s.peers.dom().finite(),
        forall|k: Seq<char>| #[trigger]
            s.peers.contains_key(k) ==> {
                &&& tables_finite(s.peers[k].last_status)
                &&& s.peers[k].probe_pairs.dom().finite()
                &&& forall|n: Seq<char>|
                    s.peers[k].probe_pairs.contains_key(n) ==> (
                    #[trigger] s.peers[k].probe_pairs[n]).dom().finite()
            },
    ensures
        ({
            let links = topology_of(s, local).links;
            &&& links.contains_key((near, far)) <==> exists|n: u64| attested(s, near, far, n)
            &&& links.contains_key((near, far)) ==> attested(s, near, far, links[(near, far)])
        }),
{
    let own = with_node(
        nothing(),
        s.node_id,
        s.hostname,
        ports_of(local.addrs, local.addr_tags, local.addr_ifaces),
    );
    lemma_keys_of(s.peers);
    let keys = ordered(s.peers.dom());
    lemma_peers_linked(own, s, keys);
    let met = with_peers(own, s.peers, keys);
    lemma_agents_link_nothing(met, s, ordered(s.agents.dom()));
    if exists|n: u64| attested(s, near, far, n) {
        let n = choose|n: u64| attested(s, near, far, n);
        let k = choose|k: Seq<char>| #[trigger]
            s.peers.contains_key(k) && s.peers[k].alive && (probed(s.peers[k], near, far, n)
                || exists|q: Seq<char>| told(s.peers[k], q, near, far, n));
        let i = choose|i: int| 0 <= i < keys.len() && keys[i] == k;
        if probed(s.peers[k], near, far, n) {
            assert(probed(s.peers[keys[i]], near, far, n));
        } else {
            let q = choose|q: Seq<char>| told(s.peers[k], q, near, far, n);
            assert(told(s.peers[keys[i]], q, near, far, n));
        }
    }
}

} // verus!
